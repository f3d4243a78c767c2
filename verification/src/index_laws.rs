//! What is to be expected of a text that is taken into the index: which
//! labels, references, macros and links come of it, and which stay.

use crate::captures::{
    all_nodes, all_pairs, define_of, nodes_for, path_in, side_by_side, symbols_of, with_defines,
};
use crate::data::{kind_of, lemma_unresolved, syntax_of, FileKind, Index, SyntaxView};
use crate::file_depot::Files;
use crate::graph;
use crate::includes_depot::{with_define, DefineView};
use crate::laws::lemma_after_text;
use crate::symbols::{without_file, SymbolView};
use crate::syntax::{matches_of, CaptureView};
use crate::text_laws::{
    is_blank, is_path_in, is_stripped, lemma_enclosed_path, lemma_path_in, lemma_path_once,
    lemma_text_width, lemma_trimmed_blanks,
};
use crate::types::{Position, Range};
use crate::url;
use vstd::prelude::*;
use vstd::string::*;
use vstd::utf8::encode_utf8;

verus! {

/// The nodes of a query are the captures of its matches that have the given
/// number, match by match.
pub proof fn lemma_all_nodes(matches: Seq<Seq<CaptureView>>, index: u32)
    ensures
        all_nodes(matches, index) == matches.map_values(
            |m: Seq<CaptureView>| m.filter(|c: CaptureView| c.index == index),
        ).flatten(),
    decreases matches.len(),
{
    let f = |m: Seq<CaptureView>| m.filter(|c: CaptureView| c.index == index);
    let mapped = matches.map_values(f);
    mapped.lemma_flatten_and_flatten_alt_are_equivalent();
    if matches.len() > 0 {
        let rest = matches.drop_last();
        lemma_all_nodes(rest, index);
        rest.map_values(f).lemma_flatten_and_flatten_alt_are_equivalent();
        assert(mapped.drop_last() =~= rest.map_values(f));
        assert(mapped.last() == f(matches.last()));
    }
}

/// The captures of one match with a given number are picked in their order.
pub proof fn lemma_nodes_for(found: Seq<CaptureView>, index: u32)
    ensures
        nodes_for(found, index) == found.filter(|c: CaptureView| c.index == index),
{
}

/// The first capture of each number go together, then the second ones, as far
/// as both go, match by match.
pub proof fn lemma_all_pairs(matches: Seq<Seq<CaptureView>>)
    ensures
        all_pairs(matches) == matches.map_values(
            |m: Seq<CaptureView>|
                {
                    let names = m.filter(|c: CaptureView| c.index == 0);
                    let values = m.filter(|c: CaptureView| c.index == 1);
                    Seq::new(
                        if names.len() < values.len() {
                            names.len()
                        } else {
                            values.len()
                        },
                        |p: int| (names[p], values[p]),
                    )
                },
        ).flatten(),
    decreases matches.len(),
{
    let f = |m: Seq<CaptureView>|
        {
            let names = m.filter(|c: CaptureView| c.index == 0);
            let values = m.filter(|c: CaptureView| c.index == 1);
            Seq::new(
                if names.len() < values.len() {
                    names.len()
                } else {
                    values.len()
                },
                |p: int| (names[p], values[p]),
            )
        };
    let mapped = matches.map_values(f);
    mapped.lemma_flatten_and_flatten_alt_are_equivalent();
    if matches.len() > 0 {
        let rest = matches.drop_last();
        lemma_all_pairs(rest);
        rest.map_values(f).lemma_flatten_and_flatten_alt_are_equivalent();
        assert(mapped.drop_last() =~= rest.map_values(f));
        let last = matches.last();
        assert(side_by_side(nodes_for(last, 0), nodes_for(last, 1)) =~= f(last));
        assert(mapped.last() == f(last));
    }
}

/// Each node of a query is a symbol: its text is the name, and its range the
/// place.
pub proof fn lemma_symbols_of(matches: Seq<Seq<CaptureView>>, uri: Seq<char>)
    ensures
        symbols_of(matches, uri) == matches.map_values(
            |m: Seq<CaptureView>| m.filter(|c: CaptureView| c.index == 0),
        ).flatten().map_values(
            |c: CaptureView|
                SymbolView {
                    name: c.text,
                    uri,
                    range: Range {
                        start: Position { line: c.range.0 as u32, character: c.range.1 as u32 },
                        end: Position { line: c.range.2 as u32, character: c.range.3 as u32 },
                    },
                },
        ),
{
    lemma_all_nodes(matches, 0);
    assert(symbols_of(matches, uri) =~= matches.map_values(
        |m: Seq<CaptureView>| m.filter(|c: CaptureView| c.index == 0),
    ).flatten().map_values(
        |c: CaptureView|
            SymbolView {
                name: c.text,
                uri,
                range: Range {
                    start: Position { line: c.range.0 as u32, character: c.range.1 as u32 },
                    end: Position { line: c.range.2 as u32, character: c.range.3 as u32 },
                },
            },
    ));
}

/// What is read of a text are the matches of the four queries in it, if it is
/// short enough to be parsed, and nothing else.
pub proof fn lemma_handled_reads(
    index: Index,
    uri: Seq<char>,
    text: Seq<char>,
    syntax: SyntaxView,
)
    requires
        encode_utf8(text).len() <= 0xffff_fffe,
        syntax.labels == matches_of(text, "(node label: (identifier)@id)"@),
        syntax.references == matches_of(text, "(reference label: (identifier)@id)"@),
        syntax.includes == matches_of(
            text,
            "[(dtsi_include path: (string_literal)@id) (preproc_include path: (string_literal)@id) (preproc_include path: (system_lib_string)@id)]"@,
        ),
        syntax.defines == matches_of(
            text,
            "[(preproc_def name: (identifier)@name value: (preproc_arg)@id) (preproc_function_def name: (identifier)@name parameters: (preproc_params) value: (preproc_arg)@id)]"@,
        ),
    ensures
        index.handled(uri, Some(text)) == index.with_text(uri, kind_of(uri), text, syntax),
        index.after(uri, Some(text)) == index.next_files(uri, kind_of(uri), text, syntax),
{
    lemma_text_width(text);
}

/// A text becomes that of its file, if the file is indexed. No other text
/// changes, nor the directory in which paths are looked up.
pub proof fn lemma_texts_after(
    index: Index,
    uri: Seq<char>,
    kind: FileKind,
    text: Seq<char>,
    syntax: SyntaxView,
)
    ensures
        ({
            let after = index.with_text(uri, kind, text, syntax);
            &&& after.files.texts == if kind is Other {
                index.files.texts
            } else {
                index.files.texts.insert(uri, text)
            }
            &&& after.files.include_root == index.files.include_root
        }),
{
    lemma_after_text(index, uri, kind, text, syntax);
    let after = index.with_text(uri, kind, text, syntax);
    if index.files.texts.contains_key(uri) && index.files.texts[uri] == text {
        assert(index.files.texts =~= index.files.texts.insert(uri, text));
    }
}

/// The labels after a text was taken in are those of other files, and behind
/// them one for each node that the query for labels found in it. A header has
/// none. A text that is known already changes nothing.
pub proof fn lemma_labels_after(
    index: Index,
    uri: Seq<char>,
    kind: FileKind,
    text: Seq<char>,
    syntax: SyntaxView,
)
    ensures
        index.with_text(uri, kind, text, syntax).labels == if kind is Other || (
        index.files.texts.contains_key(uri) && index.files.texts[uri] == text) {
            index.labels
        } else {
            (if index.files.texts.contains_key(uri) {
                index.labels.filter(|s: SymbolView| s.uri != uri)
            } else {
                index.labels
            }) + (if kind is Source {
                syntax.labels.map_values(
                    |m: Seq<CaptureView>| m.filter(|c: CaptureView| c.index == 0),
                ).flatten().map_values(
                    |c: CaptureView|
                        SymbolView {
                            name: c.text,
                            uri,
                            range: Range {
                                start: Position {
                                    line: c.range.0 as u32,
                                    character: c.range.1 as u32,
                                },
                                end: Position {
                                    line: c.range.2 as u32,
                                    character: c.range.3 as u32,
                                },
                            },
                        },
                )
            } else {
                Seq::empty()
            })
        },
{
    lemma_after_text(index, uri, kind, text, syntax);
    lemma_symbols_of(syntax.labels, uri);
    let stored = index.stored(uri, text);
    assert(stored.labels + Seq::<SymbolView>::empty() =~= stored.labels);
}

/// The references after a text was taken in are those of other files, and
/// behind them one for each node that the query for references found in it. A
/// header has none. A text that is known already changes nothing.
pub proof fn lemma_references_after(
    index: Index,
    uri: Seq<char>,
    kind: FileKind,
    text: Seq<char>,
    syntax: SyntaxView,
)
    ensures
        index.with_text(uri, kind, text, syntax).references == if kind is Other || (
        index.files.texts.contains_key(uri) && index.files.texts[uri] == text) {
            index.references
        } else {
            (if index.files.texts.contains_key(uri) {
                index.references.filter(|s: SymbolView| s.uri != uri)
            } else {
                index.references
            }) + (if kind is Source {
                syntax.references.map_values(
                    |m: Seq<CaptureView>| m.filter(|c: CaptureView| c.index == 0),
                ).flatten().map_values(
                    |c: CaptureView|
                        SymbolView {
                            name: c.text,
                            uri,
                            range: Range {
                                start: Position {
                                    line: c.range.0 as u32,
                                    character: c.range.1 as u32,
                                },
                                end: Position {
                                    line: c.range.2 as u32,
                                    character: c.range.3 as u32,
                                },
                            },
                        },
                )
            } else {
                Seq::empty()
            })
        },
{
    lemma_after_text(index, uri, kind, text, syntax);
    lemma_symbols_of(syntax.references, uri);
    let stored = index.stored(uri, text);
    assert(stored.references + Seq::<SymbolView>::empty() =~= stored.references);
}

/// The file that a path names: a path in a literal that ends with a bracket is
/// joined to the directory of bindings, any other to the address of the file
/// that it stands in. That it can be joined to that address is asked of both.
pub proof fn lemma_target(index: Index, uri: Seq<char>, literal: Seq<char>, path: Seq<char>)
    requires
        is_path_in(literal, path),
    ensures
        index.target(uri, path_in(literal)) == if url::joined_url(uri, path) is None {
            None
        } else if literal.len() > 0 && literal[literal.len() - 1] == '>' {
            match index.files.include_root {
                Some(root) => url::joined_url(root, path),
                None => None,
            }
        } else {
            url::joined_url(uri, path)
        },
{
    lemma_path_in(literal);
    lemma_path_once(literal, path, path_in(literal).path);
}

/// The file that a path in brackets or in quotes names, whatever its
/// extension: in brackets it is looked up in the directory of bindings, in
/// quotes it is seen from the file that it stands in.
pub proof fn lemma_enclosed_target(
    index: Index,
    uri: Seq<char>,
    root: Seq<char>,
    path: Seq<char>,
)
    requires
        index.files.include_root == Some(root),
        url::joined_url(uri, path) is Some,
        forall|i: int|
            0 <= i < path.len() ==> (#[trigger] path[i]) != '"' && path[i] != '<' && path[i] != '>',
    ensures
        index.target(uri, path_in(seq!['<'] + path + seq!['>'])) == url::joined_url(root, path),
        index.target(uri, path_in(seq!['"'] + path + seq!['"'])) == url::joined_url(uri, path),
{
    lemma_enclosed_path(path);
}

/// The files that are read after a source with a new text are those that its
/// paths name, one for each node that the query for paths found, in order. It
/// fails exactly where one of them names none. After any other text no file is
/// read.
pub proof fn lemma_next_files(
    index: Index,
    uri: Seq<char>,
    kind: FileKind,
    text: Seq<char>,
    syntax: SyntaxView,
)
    ensures
        ({
            let nodes = syntax.includes.map_values(
                |m: Seq<CaptureView>| m.filter(|c: CaptureView| c.index == 0),
            ).flatten();
            if !(kind is Source) || index.files.texts.contains_key(uri)
                && index.files.texts[uri] == text {
                index.next_files(uri, kind, text, syntax) == Ok::<Seq<Seq<char>>, Seq<char>>(
                    Seq::empty(),
                )
            } else {
                match index.next_files(uri, kind, text, syntax) {
                    Ok(files) => {
                        &&& files.len() == nodes.len()
                        &&& forall|k: int|
                            0 <= k < nodes.len() ==> index.target(
                                uri,
                                path_in((#[trigger] nodes[k]).text),
                            ) == Some(files[k])
                    },
                    Err(path) => exists|k: int|
                        {
                            &&& 0 <= k < nodes.len()
                            &&& index.target(uri, path_in((#[trigger] nodes[k]).text)) is None
                            &&& is_path_in(nodes[k].text, path)
                        },
                }
            }
        }),
{
    let known = index.indexed(uri, kind, text, syntax);
    let nodes = all_nodes(syntax.includes, 0);
    lemma_all_nodes(syntax.includes, 0);
    lemma_unresolved(known, nodes, uri);
    assert forall|k: int| 0 <= k < nodes.len() implies index.target(
        uri,
        path_in((#[trigger] nodes[k]).text),
    ) == known.target(uri, path_in(nodes[k].text)) && is_path_in(
        nodes[k].text,
        path_in(nodes[k].text).path,
    ) by {
        assert(known.files.include_root == index.files.include_root);
        lemma_path_in(nodes[k].text);
    }
}

proof fn lemma_links_after_link(
    index: Index,
    uri: Seq<char>,
    targets: Seq<Seq<char>>,
    a: Seq<char>,
    b: Seq<char>,
)
    ensures
        index.with_links(uri, targets).files.links.contains((a, b)) <==> index.files.links.contains(
            (a, b),
        ) || a == uri && targets.contains(b),
    decreases targets.len(),
{
    if targets.len() > 0 {
        let rest = targets.drop_last();
        let before = index.with_links(uri, rest).files.links;
        let after = index.with_links(uri, targets).files.links;
        lemma_links_after_link(index, uri, rest, a, b);
        assert(targets =~= rest.push(targets.last()));
        if rest.contains(b) {
            let k = choose|k: int| 0 <= k < rest.len() && rest[k] == b;
            assert(targets[k] == b);
        }
        if targets.contains(b) && b != targets.last() {
            let k = choose|k: int| 0 <= k < targets.len() && targets[k] == b;
            assert(rest[k] == b);
        }
        assert(targets[targets.len() - 1] == targets.last());
        if after != before {
            assert(after == before.push((uri, targets.last())));
            assert(after[after.len() - 1] == (uri, targets.last()));
            if before.contains((a, b)) {
                let k = choose|k: int| 0 <= k < before.len() && before[k] == (a, b);
                assert(after[k] == (a, b));
            }
            if after.contains((a, b)) && (a, b) != (uri, targets.last()) {
                let k = choose|k: int| 0 <= k < after.len() && after[k] == (a, b);
                assert(before[k] == (a, b));
            }
        } else {
            assert(before.contains((uri, targets.last())) || a != uri || b != targets.last());
        }
    }
}

/// The links after a text was taken in are those that were there, and one from
/// its file to each of the files that are read after it. There are no others.
pub proof fn lemma_links_after(
    index: Index,
    uri: Seq<char>,
    kind: FileKind,
    text: Seq<char>,
    syntax: SyntaxView,
    a: Seq<char>,
    b: Seq<char>,
)
    ensures
        index.with_text(uri, kind, text, syntax).files.links.contains((a, b)) <==> {
            ||| index.files.links.contains((a, b))
            ||| a == uri && match index.next_files(uri, kind, text, syntax) {
                Ok(files) => files.contains(b),
                Err(_) => false,
            }
        },
{
    let known = index.indexed(uri, kind, text, syntax);
    if let Ok(files) = index.next_files(uri, kind, text, syntax) {
        lemma_links_after_link(known, uri, files, a, b);
    }
}

/// Files are connected by nothing but links: a set of files that no link
/// leaves or enters holds all files that are connected with one of its own.
pub proof fn lemma_connected_least(
    links: Seq<(Seq<char>, Seq<char>)>,
    a: Seq<char>,
    b: Seq<char>,
    group: Set<Seq<char>>,
)
    requires
        graph::connected(links, a, b),
        group.contains(a),
        forall|k: int|
            0 <= k < links.len() ==> group.contains((#[trigger] links[k]).0) == group.contains(
                links[k].1,
            ),
    ensures
        group.contains(b),
{
    let path = choose|path: Seq<Seq<char>>| #[trigger]
        graph::is_path(links, path) && path.first() == a && path.last() == b;
    lemma_path_in_group(links, path, group, path.len() - 1);
}

proof fn lemma_path_in_group(
    links: Seq<(Seq<char>, Seq<char>)>,
    path: Seq<Seq<char>>,
    group: Set<Seq<char>>,
    i: int,
)
    requires
        graph::is_path(links, path),
        group.contains(path[0]),
        0 <= i < path.len(),
        forall|k: int|
            0 <= k < links.len() ==> group.contains((#[trigger] links[k]).0) == group.contains(
                links[k].1,
            ),
    ensures
        group.contains(path[i]),
    decreases i,
{
    if i > 0 {
        lemma_path_in_group(links, path, group, i - 1);
        let a = path[i - 1];
        let b = path[i - 1 + 1];
        assert(graph::linked(links, a, b));
        if links.contains((a, b)) {
            let k = choose|k: int| 0 <= k < links.len() && links[k] == (a, b);
            assert(group.contains(links[k].0));
        } else {
            let k = choose|k: int| 0 <= k < links.len() && links[k] == (b, a);
            assert(group.contains(links[k].0) == group.contains(links[k].1));
        }
    }
}

/// A link connects its two files.
pub proof fn lemma_link_connects_both(
    links: Seq<(Seq<char>, Seq<char>)>,
    a: Seq<char>,
    b: Seq<char>,
)
    requires
        links.contains((a, b)),
    ensures
        graph::connected(links, a, b),
{
    assert(graph::is_path(links, seq![a, b]));
}

/// The connections of the index are those of its links.
pub proof fn lemma_connects(files: Files, a: Seq<char>, b: Seq<char>)
    ensures
        files.connects(a, b) == graph::connected(files.links, a, b),
{
}

/// A text connects no files but through the files that its paths name: what
/// was a group of its own, and holds the file of the text and all files that
/// its paths name or none of them, is still one.
pub proof fn lemma_groups_after(
    index: Index,
    uri: Seq<char>,
    kind: FileKind,
    text: Seq<char>,
    syntax: SyntaxView,
    group: Set<Seq<char>>,
    a: Seq<char>,
    b: Seq<char>,
)
    requires
        index.with_text(uri, kind, text, syntax).files.connects(a, b),
        group.contains(a),
        forall|k: int|
            0 <= k < index.files.links.len() ==> group.contains(
                (#[trigger] index.files.links[k]).0,
            ) == group.contains(index.files.links[k].1),
        match index.next_files(uri, kind, text, syntax) {
            Ok(files) => forall|k: int|
                0 <= k < files.len() ==> group.contains(#[trigger] files[k]) == group.contains(uri),
            Err(_) => true,
        },
    ensures
        group.contains(b),
{
    let links = index.with_text(uri, kind, text, syntax).files.links;
    assert forall|k: int| 0 <= k < links.len() implies group.contains((#[trigger] links[k]).0)
        == group.contains(links[k].1) by {
        let (x, y) = links[k];
        assert(links.contains((x, y)));
        lemma_links_after(index, uri, kind, text, syntax, x, y);
        if index.files.links.contains((x, y)) {
            let j = choose|j: int|
                0 <= j < index.files.links.len() && index.files.links[j] == (x, y);
            assert(group.contains(index.files.links[j].0) == group.contains(
                index.files.links[j].1,
            ));
        } else {
            let files = index.next_files(uri, kind, text, syntax)->Ok_0;
            let j = choose|j: int| 0 <= j < files.len() && files[j] == y;
            assert(group.contains(files[j]) == group.contains(uri));
        }
    }
    lemma_connected_least(links, a, b, group);
}

/// A text without paths connects no files.
pub proof fn lemma_no_paths_connect_nothing(
    index: Index,
    uri: Seq<char>,
    kind: FileKind,
    text: Seq<char>,
    syntax: SyntaxView,
    a: Seq<char>,
    b: Seq<char>,
)
    requires
        forall|i: int, j: int|
            0 <= i < syntax.includes.len() && 0 <= j < syntax.includes[i].len() ==> (
            #[trigger] syntax.includes[i][j]).index != 0,
    ensures
        index.with_text(uri, kind, text, syntax).files.connects(a, b) <==> index.files.connects(
            a,
            b,
        ),
{
    lemma_no_nodes(syntax.includes);
    let known = index.indexed(uri, kind, text, syntax);
    assert(known.files.links == index.files.links);
}

proof fn lemma_no_nodes(matches: Seq<Seq<CaptureView>>)
    requires
        forall|i: int, j: int|
            0 <= i < matches.len() && 0 <= j < matches[i].len() ==> (
            #[trigger] matches[i][j]).index != 0,
    ensures
        all_nodes(matches, 0) == Seq::<CaptureView>::empty(),
    decreases matches.len(),
{
    if matches.len() > 0 {
        let rest = matches.drop_last();
        assert forall|i: int, j: int| 0 <= i < rest.len() && 0 <= j < rest[i].len() implies (
        #[trigger] rest[i][j]).index != 0 by {
            assert(rest[i][j] == matches[i][j]);
        }
        lemma_no_nodes(rest);
        let last = matches.last();
        let wanted = |c: CaptureView| c.index == 0;
        assert forall|j: int| 0 <= j < last.len() implies !wanted(#[trigger] last[j]) by {
            assert(matches[matches.len() - 1][j] == last[j]);
        }
        last.lemma_all_neg_filter_empty(wanted);
        assert(all_nodes(matches, 0) =~= Seq::empty());
    }
}

/// To forget a file is to forget its symbols, and no others.
pub proof fn lemma_without_file(symbols: Seq<SymbolView>, uri: Seq<char>)
    ensures
        without_file(symbols, uri) == symbols.filter(|s: SymbolView| s.uri != uri),
{
}

/// What becomes of a text depends on what was known of its file.
pub proof fn lemma_insert_result(files: Files, uri: Seq<char>, text: Seq<char>)
    ensures
        files.insert_result(uri, text) is New <==> !files.texts.contains_key(uri),
        files.insert_result(uri, text) is Exists <==> files.texts.contains_key(uri)
            && files.texts[uri] == text,
        files.text(uri) is Some <==> files.texts.contains_key(uri),
        files.texts.contains_key(uri) ==> files.text(uri) == Some(files.texts[uri]),
        files.inserted(uri, text).texts == files.texts.insert(uri, text),
        files.inserted(uri, text).links == files.links,
        files.inserted(uri, text).include_root == files.include_root,
{
}

/// A text that is too long to be parsed holds nothing.
pub proof fn lemma_handled_too_long(
    index: Index,
    uri: Seq<char>,
    text: Seq<char>,
    syntax: SyntaxView,
)
    requires
        encode_utf8(text).len() > 0xffff_fffe,
        syntax.labels.len() == 0,
        syntax.references.len() == 0,
        syntax.includes.len() == 0,
        syntax.defines.len() == 0,
    ensures
        index.handled(uri, Some(text)) == index.with_text(uri, kind_of(uri), text, syntax),
        index.after(uri, Some(text)) == index.next_files(uri, kind_of(uri), text, syntax),
{
    lemma_text_width(text);
    let read = syntax_of(text);
    assert(read.labels =~= syntax.labels);
    assert(read.references =~= syntax.references);
    assert(read.includes =~= syntax.includes);
    assert(read.defines =~= syntax.defines);
}

/// Whether the match with the number `i` holds a name and a value with the
/// number `p`.
pub open spec fn has_pair(matches: Seq<Seq<CaptureView>>, i: int, p: int) -> bool {
    &&& 0 <= i < matches.len()
    &&& 0 <= p < matches[i].filter(|c: CaptureView| c.index == 0).len()
    &&& p < matches[i].filter(|c: CaptureView| c.index == 1).len()
}

/// The name with the number `p` of the match with the number `i`.
pub open spec fn name_at(matches: Seq<Seq<CaptureView>>, i: int, p: int) -> CaptureView {
    matches[i].filter(|c: CaptureView| c.index == 0)[p]
}

/// The value with the number `p` of the match with the number `i`.
pub open spec fn value_at(matches: Seq<Seq<CaptureView>>, i: int, p: int) -> CaptureView {
    matches[i].filter(|c: CaptureView| c.index == 1)[p]
}

/// Whether `macro_view` is the macro that a name and a value of `uri` define:
/// its name and place are those of the name, and its value is that of the
/// value without white space around it.
pub open spec fn is_defined_by(
    macro_view: DefineView,
    uri: Seq<char>,
    name: CaptureView,
    value: CaptureView,
) -> bool {
    &&& macro_view.symbol.name == name.text
    &&& macro_view.symbol.uri == uri
    &&& macro_view.symbol.range == (Range {
        start: Position { line: name.range.0 as u32, character: name.range.1 as u32 },
        end: Position { line: name.range.2 as u32, character: name.range.3 as u32 },
    })
    &&& is_stripped(value.text, |x: char| is_blank(x), macro_view.value)
}

/// The number of the first pair of the match with the number `i`, counted
/// over all matches.
spec fn first_pair(matches: Seq<Seq<CaptureView>>, i: int) -> int {
    all_pairs(matches.take(i)).len() as int
}

proof fn lemma_first_pair(matches: Seq<Seq<CaptureView>>, i: int)
    requires
        0 <= i < matches.len(),
    ensures
        first_pair(matches, i + 1) == first_pair(matches, i) + side_by_side(
            matches[i].filter(|c: CaptureView| c.index == 0),
            matches[i].filter(|c: CaptureView| c.index == 1),
        ).len(),
        all_pairs(matches.take(i + 1)) == all_pairs(matches.take(i)) + side_by_side(
            matches[i].filter(|c: CaptureView| c.index == 0),
            matches[i].filter(|c: CaptureView| c.index == 1),
        ),
{
    assert(matches.take(i + 1).drop_last() =~= matches.take(i));
    assert(matches.take(i + 1).last() == matches[i]);
}

proof fn lemma_pairs_prefix(matches: Seq<Seq<CaptureView>>, i: int, j: int)
    requires
        0 <= i <= j <= matches.len(),
    ensures
        first_pair(matches, i) <= first_pair(matches, j),
        all_pairs(matches.take(i)) == all_pairs(matches.take(j)).take(first_pair(matches, i)),
    decreases j - i,
{
    if i < j {
        lemma_pairs_prefix(matches, i, j - 1);
        lemma_first_pair(matches, j - 1);
        let n = first_pair(matches, i);
        assert(all_pairs(matches.take(j)).take(n) =~= all_pairs(matches.take(j - 1)).take(n));
    } else {
        assert(all_pairs(matches.take(i)).take(first_pair(matches, i)) =~= all_pairs(
            matches.take(i),
        ));
    }
}

/// Where a name and a value of a match stand among all pairs.
proof fn lemma_pair_number(matches: Seq<Seq<CaptureView>>, i: int, p: int)
    requires
        has_pair(matches, i, p),
    ensures
        ({
            let q = first_pair(matches, i) + p;
            &&& 0 <= q < all_pairs(matches).len()
            &&& q < first_pair(matches, i + 1)
            &&& all_pairs(matches)[q] == (name_at(matches, i, p), value_at(matches, i, p))
        }),
{
    let q = first_pair(matches, i) + p;
    let len = matches.len() as int;
    lemma_first_pair(matches, i);
    lemma_pairs_prefix(matches, i + 1, len);
    assert(matches.take(len) =~= matches);
    let part = all_pairs(matches.take(i + 1));
    assert(part[q] == (name_at(matches, i, p), value_at(matches, i, p)));
    assert(part == all_pairs(matches).take(first_pair(matches, i + 1)));
    assert(all_pairs(matches).take(first_pair(matches, i + 1))[q] == all_pairs(matches)[q]);
}

/// Of which match a pair is.
proof fn lemma_pair_origin(matches: Seq<Seq<CaptureView>>, n: int, q: int) -> (r: (int, int))
    requires
        0 <= n <= matches.len(),
        0 <= q < first_pair(matches, n),
    ensures
        has_pair(matches, r.0, r.1),
        q == first_pair(matches, r.0) + r.1,
        r.0 < n,
    decreases n,
{
    if n == 0 {
        assert(matches.take(0) =~= Seq::empty());
        (0, 0)
    } else {
        lemma_first_pair(matches, n - 1);
        if q < first_pair(matches, n - 1) {
            lemma_pair_origin(matches, n - 1, q)
        } else {
            (n - 1, q - first_pair(matches, n - 1))
        }
    }
}

/// One more macro takes the place of the one of its name in its file, or
/// stands behind all others. The others stay where and as they are.
pub proof fn lemma_with_define(defines: Seq<DefineView>, new: DefineView)
    ensures
        ({
            let after = with_define(defines, new);
            &&& after.contains(new)
            &&& defines.len() <= after.len()
            &&& forall|k: int|
                0 <= k < defines.len() ==> (#[trigger] after[k]).symbol.name
                    == defines[k].symbol.name && after[k].symbol.uri == defines[k].symbol.uri
            &&& forall|k: int|
                0 <= k < after.len() ==> {
                    let d = #[trigger] after[k];
                    d == new || k < defines.len() && d == defines[k] && !d.same_key(new)
                }
            &&& forall|k: int|
                0 <= k < defines.len() && !(#[trigger] defines[k]).same_key(new) ==> after[k]
                    == defines[k]
        }),
{
    let after = with_define(defines, new);
    if exists|k: int| 0 <= k < defines.len() && (#[trigger] defines[k]).same_key(new) {
        let k = choose|k: int| 0 <= k < defines.len() && (#[trigger] defines[k]).same_key(new);
        assert(after[k] == new);
    } else {
        assert(after[defines.len() as int] == new);
    }
}

/// What macros one after the other change.
proof fn lemma_with_defines(
    defines: Seq<DefineView>,
    pairs: Seq<(CaptureView, CaptureView)>,
    uri: Seq<char>,
)
    ensures
        ({
            let after = with_defines(defines, pairs, uri);
            &&& defines.len() <= after.len()
            &&& forall|k: int|
                0 <= k < defines.len() ==> (#[trigger] after[k]).symbol.name
                    == defines[k].symbol.name && after[k].symbol.uri == defines[k].symbol.uri
            &&& forall|q: int|
                0 <= q < pairs.len() && (forall|n: int|
                    q < n < pairs.len() ==> (#[trigger] pairs[n]).0.text != pairs[q].0.text)
                    ==> after.contains(define_of(#[trigger] pairs[q], uri))
            &&& forall|k: int|
                0 <= k < after.len() ==> {
                    let d = #[trigger] after[k];
                    ||| k < defines.len() && d == defines[k]
                    ||| exists|q: int| 0 <= q < pairs.len() && d == define_of(#[trigger] pairs[q], uri)
                }
            &&& forall|k: int|
                0 <= k < defines.len() && ((#[trigger] defines[k]).symbol.uri != uri || forall|q: int|
                    0 <= q < pairs.len() ==> (#[trigger] pairs[q]).0.text != defines[k].symbol.name)
                    ==> after[k] == defines[k]
        }),
    decreases pairs.len(),
{
    if pairs.len() > 0 {
        let rest = pairs.drop_last();
        let last = pairs.len() - 1;
        let before = with_defines(defines, rest, uri);
        let after = with_defines(defines, pairs, uri);
        let new = define_of(pairs.last(), uri);
        lemma_with_defines(defines, rest, uri);
        lemma_with_define(before, new);
        assert(after == with_define(before, new));
        assert forall|q: int|
            0 <= q < pairs.len() && (forall|n: int|
                q < n < pairs.len() ==> (#[trigger] pairs[n]).0.text
                    != pairs[q].0.text) implies after.contains(
            define_of(#[trigger] pairs[q], uri),
        ) by {
            if q < last {
                assert(rest[q] == pairs[q]);
                assert forall|n: int| q < n < rest.len() implies (#[trigger] rest[n]).0.text
                    != rest[q].0.text by {
                    assert(rest[n] == pairs[n]);
                }
                let d = define_of(rest[q], uri);
                assert(before.contains(d));
                let k = choose|k: int| 0 <= k < before.len() && before[k] == d;
                assert(pairs[last].0.text != pairs[q].0.text);
                assert(!before[k].same_key(new));
                assert(after[k] == d);
            }
        }
        assert forall|k: int| 0 <= k < after.len() implies ({
            let d = #[trigger] after[k];
            ||| k < defines.len() && d == defines[k]
            ||| exists|q: int| 0 <= q < pairs.len() && d == define_of(#[trigger] pairs[q], uri)
        }) by {
            let d = after[k];
            if d == new {
                assert(d == define_of(pairs[last], uri));
            } else {
                assert(d == before[k]);
                if !(k < defines.len() && d == defines[k]) {
                    let q = choose|q: int|
                        0 <= q < rest.len() && d == define_of(#[trigger] rest[q], uri);
                    assert(rest[q] == pairs[q]);
                }
            }
        }
        assert forall|k: int|
            0 <= k < defines.len() && ((#[trigger] defines[k]).symbol.uri != uri || forall|q: int|
                0 <= q < pairs.len() ==> (#[trigger] pairs[q]).0.text
                    != defines[k].symbol.name) implies after[k] == defines[k] by {
            if defines[k].symbol.uri == uri {
                assert forall|q: int| 0 <= q < rest.len() implies (#[trigger] rest[q]).0.text
                    != defines[k].symbol.name by {
                    assert(rest[q] == pairs[q]);
                }
                assert(pairs[last].0.text != defines[k].symbol.name);
            }
            assert(before[k] == defines[k]);
            assert(!before[k].same_key(new));
        }
    }
}

proof fn lemma_define_of(name: CaptureView, value: CaptureView, uri: Seq<char>)
    ensures
        is_defined_by(define_of((name, value), uri), uri, name, value),
{
    lemma_trimmed_blanks(value.text);
}

/// After a new text was taken in, each name and value that the query for
/// macros found in it is a macro of its file, unless a later one in the text
/// has the same name.
pub proof fn lemma_macro_is_indexed(
    index: Index,
    uri: Seq<char>,
    kind: FileKind,
    text: Seq<char>,
    syntax: SyntaxView,
    i: int,
    p: int,
) -> (k: int)
    requires
        !(kind is Other),
        !(index.files.texts.contains_key(uri) && index.files.texts[uri] == text),
        has_pair(syntax.defines, i, p),
        forall|j: int, n: int| #[trigger]
            has_pair(syntax.defines, j, n) && (j > i || j == i && n > p) ==> name_at(
                syntax.defines,
                j,
                n,
            ).text != name_at(syntax.defines, i, p).text,
    ensures
        0 <= k < index.with_text(uri, kind, text, syntax).defines.len(),
        is_defined_by(
            index.with_text(uri, kind, text, syntax).defines[k],
            uri,
            name_at(syntax.defines, i, p),
            value_at(syntax.defines, i, p),
        ),
{
    let after = index.with_text(uri, kind, text, syntax).defines;
    let matches = syntax.defines;
    let pairs = all_pairs(matches);
    let q = first_pair(matches, i) + p;
    let len = matches.len() as int;
    lemma_after_text(index, uri, kind, text, syntax);
    lemma_pair_number(matches, i, p);
    lemma_with_defines(index.defines, pairs, uri);
    assert(matches.take(len) =~= matches);
    assert forall|n: int| q < n < pairs.len() implies (#[trigger] pairs[n]).0.text
        != pairs[q].0.text by {
        let (j, m) = lemma_pair_origin(matches, len, n);
        lemma_pair_number(matches, j, m);
        if j < i {
            lemma_pairs_prefix(matches, j + 1, i);
        }
        assert(has_pair(matches, j, m));
    }
    lemma_define_of(pairs[q].0, pairs[q].1, uri);
    assert(after.contains(define_of(pairs[q], uri)));
    choose|k: int| 0 <= k < after.len() && after[k] == define_of(pairs[q], uri)
}

/// Each macro that is there after a text was taken in was there before, at the
/// same place of the index, or is a name and a value that the query for macros
/// found in the text.
pub proof fn lemma_macro_origin(
    index: Index,
    uri: Seq<char>,
    kind: FileKind,
    text: Seq<char>,
    syntax: SyntaxView,
    k: int,
)
    requires
        0 <= k < index.with_text(uri, kind, text, syntax).defines.len(),
    ensures
        ({
            let d = index.with_text(uri, kind, text, syntax).defines[k];
            ||| k < index.defines.len() && d == index.defines[k]
            ||| exists|i: int, p: int| #[trigger]
                has_pair(syntax.defines, i, p) && is_defined_by(
                    d,
                    uri,
                    name_at(syntax.defines, i, p),
                    value_at(syntax.defines, i, p),
                )
        }),
{
    let d = index.with_text(uri, kind, text, syntax).defines[k];
    let matches = syntax.defines;
    let pairs = all_pairs(matches);
    lemma_after_text(index, uri, kind, text, syntax);
    lemma_with_defines(index.defines, pairs, uri);
    if !(k < index.defines.len() && d == index.defines[k]) {
        let q = choose|q: int| 0 <= q < pairs.len() && d == define_of(#[trigger] pairs[q], uri);
        assert(matches.take(matches.len() as int) =~= matches);
        let (i, p) = lemma_pair_origin(matches, matches.len() as int, q);
        lemma_pair_number(matches, i, p);
        lemma_define_of(pairs[q].0, pairs[q].1, uri);
        assert(has_pair(matches, i, p));
    }
}

/// The macros that were there keep their places in the index, with their names
/// and files. Those of other files, and those of which the text has no new
/// one, stay as they are.
pub proof fn lemma_macros_kept(
    index: Index,
    uri: Seq<char>,
    kind: FileKind,
    text: Seq<char>,
    syntax: SyntaxView,
    k: int,
)
    requires
        0 <= k < index.defines.len(),
    ensures
        ({
            let after = index.with_text(uri, kind, text, syntax).defines;
            let d = index.defines[k];
            &&& index.defines.len() <= after.len()
            &&& after[k].symbol.name == d.symbol.name
            &&& after[k].symbol.uri == d.symbol.uri
            &&& d.symbol.uri != uri || (forall|i: int, p: int| #[trigger]
                has_pair(syntax.defines, i, p) ==> name_at(syntax.defines, i, p).text
                    != d.symbol.name) ==> after[k] == d
        }),
{
    let after = index.with_text(uri, kind, text, syntax).defines;
    let d = index.defines[k];
    let matches = syntax.defines;
    let pairs = all_pairs(matches);
    lemma_after_text(index, uri, kind, text, syntax);
    lemma_with_defines(index.defines, pairs, uri);
    if forall|i: int, p: int| #[trigger]
        has_pair(matches, i, p) ==> name_at(matches, i, p).text != d.symbol.name {
        assert(matches.take(matches.len() as int) =~= matches);
        assert forall|q: int| 0 <= q < pairs.len() implies (#[trigger] pairs[q]).0.text
            != d.symbol.name by {
            let (i, p) = lemma_pair_origin(matches, matches.len() as int, q);
            lemma_pair_number(matches, i, p);
            assert(has_pair(matches, i, p));
        }
    }
}

/// A text that is known already, or of a file that is not indexed, changes
/// nothing.
pub proof fn lemma_known_changes_nothing(
    index: Index,
    uri: Seq<char>,
    kind: FileKind,
    text: Seq<char>,
    syntax: SyntaxView,
)
    requires
        kind is Other || index.files.texts.contains_key(uri) && index.files.texts[uri] == text,
    ensures
        index.with_text(uri, kind, text, syntax) == index,
{
    lemma_after_text(index, uri, kind, text, syntax);
}

} // verus!
