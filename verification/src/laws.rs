//! What holds of the index whatever is asked of it.

use crate::captures::{all_pairs, define_of, symbols_of, with_defines};
use crate::data::{empty_index, kind_of, lemma_only_links, syntax_of, FileKind, Index, SyntaxView};
use crate::edit::edited;
use crate::file_depot::Files;
use crate::graph;
use crate::includes_depot::{define_place, with_define, DefineView};
use crate::loader::{indexed_last, unknown_first, ActionView, OpeningView};
use crate::rename::{edit_at, edits_of, has_place_in, renamed_at_home, visible_renamed};
use crate::symbols::{lemma_filter_after_map, places, without_file, SymbolView};
use crate::syntax::{CaptureView, NodeView};
use crate::tracking::reads;
use crate::types::{LocationView, TextEditView};
use vstd::prelude::*;

verus! {

/// Those of `symbols` that stand in `uri`.
pub open spec fn of_file(symbols: Seq<SymbolView>, uri: Seq<char>) -> Seq<SymbolView> {
    symbols.filter(|s: SymbolView| s.uri == uri)
}

/// Those of `defines` that stand in `uri`.
pub open spec fn defines_of_file(defines: Seq<DefineView>, uri: Seq<char>) -> Seq<DefineView> {
    defines.filter(|d: DefineView| d.symbol.uri == uri)
}

/// A text that a file already has changes nothing, and no file is read after
/// it.
pub proof fn lemma_known_text(index: Index, uri: Seq<char>, text: Seq<char>)
    requires
        index.files.text(uri) == Some(text),
    ensures
        index.handled(uri, Some(text)) == index,
        index.after(uri, Some(text)) == Ok::<Seq<Seq<char>>, Seq<char>>(Seq::empty()),
{
}

/// To find the same once more at an address changes nothing, and no file is
/// read after it.
pub proof fn lemma_handled_twice(index: Index, uri: Seq<char>, content: Option<Seq<char>>)
    ensures
        ({
            let once = index.handled(uri, content);
            &&& once.handled(uri, content) == once
            &&& once.after(uri, content) == Ok::<Seq<Seq<char>>, Seq<char>>(Seq::empty())
        }),
{
    if let Some(text) = content {
        lemma_after_text(index, uri, kind_of(uri), text, syntax_of(text));
    }
}

/// What a text changes beside the links.
pub(crate) proof fn lemma_after_text(
    index: Index,
    uri: Seq<char>,
    kind: FileKind,
    text: Seq<char>,
    syntax: SyntaxView,
)
    ensures
        ({
            let known = index.indexed(uri, kind, text, syntax);
            let after = index.with_text(uri, kind, text, syntax);
            after == (Index {
                files: Files { links: after.files.links, ..known.files },
                ..known
            })
        }),
{
    let known = index.indexed(uri, kind, text, syntax);
    if let Ok(targets) = index.next_files(uri, kind, text, syntax) {
        lemma_only_links(known, uri, targets);
    }
}

/// A file that is not indexed, and one without a text to read, change
/// nothing, and no file is read after them.
pub proof fn lemma_not_indexed(index: Index, uri: Seq<char>, content: Option<Seq<char>>)
    requires
        kind_of(uri) is Other || content is None,
    ensures
        index.handled(uri, content) == index,
        index.after(uri, content) == Ok::<Seq<Seq<char>>, Seq<char>>(Seq::empty()),
{
}

/// Files are read after another only where it got a text that it did not
/// have: so reading comes to an end once nothing changes any more.
pub proof fn lemma_progress(index: Index, uri: Seq<char>, content: Option<Seq<char>>)
    requires
        index.after(uri, content) != Ok::<Seq<Seq<char>>, Seq<char>>(Seq::empty()),
    ensures
        content is Some,
        index.files.text(uri) != content,
        index.handled(uri, content).files.text(uri) == content,
{
    if let Some(text) = content {
        lemma_after_text(index, uri, kind_of(uri), text, syntax_of(text));
    }
}

proof fn lemma_filter_twice<A>(all: Seq<A>, p: spec_fn(A) -> bool, q: spec_fn(A) -> bool)
    requires
        forall|x: A| #[trigger] q(x) ==> p(x),
    ensures
        all.filter(p).filter(q) == all.filter(q),
    decreases all.len(),
{
    reveal(Seq::filter);
    if all.len() > 0 {
        let rest = all.drop_last();
        lemma_filter_twice(rest, p, q);
        assert(all =~= rest.push(all.last()));
        rest.lemma_filter_push(all.last(), p);
        rest.lemma_filter_push(all.last(), q);
        if p(all.last()) {
            rest.filter(p).lemma_filter_push(all.last(), q);
        }
    }
}

/// The symbols that are taken from one file stand in that file.
proof fn lemma_taken_of_file(matches: Seq<Seq<CaptureView>>, uri: Seq<char>, other: Seq<char>)
    ensures
        other == uri ==> of_file(symbols_of(matches, uri), other) == symbols_of(matches, uri),
        other != uri ==> of_file(symbols_of(matches, uri), other) == Seq::<SymbolView>::empty(),
{
    let taken = symbols_of(matches, uri);
    let inside = |s: SymbolView| s.uri == other;
    if other == uri {
        lemma_all_kept(taken, inside);
    } else {
        taken.lemma_all_neg_filter_empty(inside);
    }
}

proof fn lemma_all_kept<A>(all: Seq<A>, p: spec_fn(A) -> bool)
    requires
        forall|k: int| 0 <= k < all.len() ==> p(#[trigger] all[k]),
    ensures
        all.filter(p) == all,
    decreases all.len(),
{
    reveal(Seq::filter);
    if all.len() > 0 {
        let rest = all.drop_last();
        assert forall|k: int| 0 <= k < rest.len() implies p(#[trigger] rest[k]) by {
            assert(rest[k] == all[k]);
        }
        lemma_all_kept(rest, p);
        assert(all =~= rest.push(all.last()));
        rest.lemma_filter_push(all.last(), p);
        assert(all[all.len() - 1] == all.last());
    }
}

/// What of a file's symbols is left once a file was given a text and new
/// symbols were taken from it.
proof fn lemma_renewed(
    symbols: Seq<SymbolView>,
    modified: bool,
    matches: Seq<Seq<CaptureView>>,
    uri: Seq<char>,
    other: Seq<char>,
)
    requires
        !modified ==> of_file(symbols, uri) == Seq::<SymbolView>::empty(),
    ensures
        ({
            let kept = if modified {
                without_file(symbols, uri)
            } else {
                symbols
            };
            &&& of_file(kept, other) == if other == uri {
                Seq::<SymbolView>::empty()
            } else {
                of_file(symbols, other)
            }
            &&& of_file(kept + symbols_of(matches, uri), other) == if other == uri {
                symbols_of(matches, uri)
            } else {
                of_file(symbols, other)
            }
        }),
{
    let inside = |s: SymbolView| s.uri == other;
    let outside = |s: SymbolView| s.uri != uri;
    let kept = if modified {
        without_file(symbols, uri)
    } else {
        symbols
    };
    if modified {
        if other == uri {
            assert forall|k: int| 0 <= k < kept.len() implies !inside(#[trigger] kept[k]) by {
                symbols.lemma_filter_pred(outside, k);
            }
            kept.lemma_all_neg_filter_empty(inside);
        } else {
            lemma_filter_twice(symbols, outside, inside);
        }
    }
    lemma_taken_of_file(matches, uri, other);
    Seq::filter_distributes_over_add(kept, symbols_of(matches, uri), inside);
    assert(of_file(kept + symbols_of(matches, uri), other) =~= of_file(kept, other) + of_file(
        symbols_of(matches, uri),
        other,
    ));
    assert(of_file(kept, other) + Seq::<SymbolView>::empty() =~= of_file(kept, other));
    assert(Seq::<SymbolView>::empty() + symbols_of(matches, uri) =~= symbols_of(matches, uri));
}

impl Index {
    /// Whether the labels and references of each file are those that are
    /// found in its text. Only a source that has a text has any.
    pub open spec fn is_current(self) -> bool {
        forall|uri: Seq<char>| #[trigger] self.is_current_in(uri)
    }

    /// Whether the labels and references of `uri` are those that are found
    /// in its text.
    pub open spec fn is_current_in(self, uri: Seq<char>) -> bool {
        &&& of_file(self.labels, uri) == self.found_in(uri, true)
        &&& of_file(self.references, uri) == self.found_in(uri, false)
    }

    /// The labels, or the references, that are found in the text of `uri`.
    pub open spec fn found_in(self, uri: Seq<char>, labels: bool) -> Seq<SymbolView> {
        match self.files.text(uri) {
            Some(text) => if !(kind_of(uri) is Source) {
                Seq::empty()
            } else if labels {
                symbols_of(syntax_of(text).labels, uri)
            } else {
                symbols_of(syntax_of(text).references, uri)
            },
            None => Seq::empty(),
        }
    }
}

/// Nothing is found in no files.
pub proof fn lemma_empty_is_current()
    ensures
        empty_index().is_current(),
{
    let index = empty_index();
    assert forall|uri: Seq<char>| #[trigger] index.is_current_in(uri) by {
        reveal(Seq::filter);
        assert(of_file(index.labels, uri) =~= Seq::empty());
        assert(of_file(index.references, uri) =~= Seq::empty());
    }
}

/// Whatever is found at an address, the labels and references of each file
/// stay those that are found in its text.
pub proof fn lemma_handled_keeps_current(
    index: Index,
    uri: Seq<char>,
    content: Option<Seq<char>>,
)
    requires
        index.is_current(),
    ensures
        index.handled(uri, content).is_current(),
{
    let after = index.handled(uri, content);
    assert forall|other: Seq<char>| #[trigger] after.is_current_in(other) by {
        assert(index.is_current_in(uri));
        assert(index.is_current_in(other));
        lemma_current_in(index, uri, content, other);
    }
}

proof fn lemma_current_in(
    index: Index,
    uri: Seq<char>,
    content: Option<Seq<char>>,
    other: Seq<char>,
)
    requires
        index.is_current_in(uri),
        index.is_current_in(other),
    ensures
        index.handled(uri, content).is_current_in(other),
{
    if let Some(text) = content {
        let syntax = syntax_of(text);
        let kind = kind_of(uri);
        lemma_after_text(index, uri, kind, text, syntax);
        if !(kind is Other) && !(index.files.insert_result(uri, text) is Exists) {
            let modified = index.files.insert_result(uri, text) is Modified;
            lemma_renewed(index.labels, modified, syntax.labels, uri, other);
            lemma_renewed(index.references, modified, syntax.references, uri, other);
        }
    }
}

/// What is found at an address leaves the texts, the labels, the references
/// and the macros of all other files alone.
pub proof fn lemma_other_files_kept(
    index: Index,
    uri: Seq<char>,
    content: Option<Seq<char>>,
    other: Seq<char>,
)
    requires
        other != uri,
    ensures
        ({
            let after = index.handled(uri, content);
            &&& after.files.text(other) == index.files.text(other)
            &&& of_file(after.labels, other) == of_file(index.labels, other)
            &&& of_file(after.references, other) == of_file(index.references, other)
            &&& defines_of_file(after.defines, other) == defines_of_file(index.defines, other)
        }),
{
    if let Some(text) = content {
        let syntax = syntax_of(text);
        let kind = kind_of(uri);
        lemma_after_text(index, uri, kind, text, syntax);
        if !(kind is Other) && !(index.files.insert_result(uri, text) is Exists) {
            let modified = index.files.insert_result(uri, text) is Modified;
            lemma_others_renewed(index.labels, modified, syntax.labels, uri, other);
            lemma_others_renewed(index.references, modified, syntax.references, uri, other);
            lemma_other_defines(index.defines, all_pairs(syntax.defines), uri, other);
        }
    }
}

proof fn lemma_others_renewed(
    symbols: Seq<SymbolView>,
    modified: bool,
    matches: Seq<Seq<CaptureView>>,
    uri: Seq<char>,
    other: Seq<char>,
)
    requires
        other != uri,
    ensures
        ({
            let kept = if modified {
                without_file(symbols, uri)
            } else {
                symbols
            };
            &&& of_file(kept, other) == of_file(symbols, other)
            &&& of_file(kept + symbols_of(matches, uri), other) == of_file(symbols, other)
        }),
{
    let inside = |s: SymbolView| s.uri == other;
    let outside = |s: SymbolView| s.uri != uri;
    let kept = if modified {
        without_file(symbols, uri)
    } else {
        symbols
    };
    lemma_filter_twice(symbols, outside, inside);
    lemma_taken_of_file(matches, uri, other);
    Seq::filter_distributes_over_add(kept, symbols_of(matches, uri), inside);
    assert(of_file(kept, other) + Seq::<SymbolView>::empty() =~= of_file(kept, other));
}

proof fn lemma_other_defines(
    defines: Seq<DefineView>,
    pairs: Seq<(CaptureView, CaptureView)>,
    uri: Seq<char>,
    other: Seq<char>,
)
    requires
        other != uri,
    ensures
        defines_of_file(with_defines(defines, pairs, uri), other) == defines_of_file(
            defines,
            other,
        ),
    decreases pairs.len(),
{
    if pairs.len() > 0 {
        lemma_other_defines(defines, pairs.drop_last(), uri, other);
        let before = with_defines(defines, pairs.drop_last(), uri);
        let new = define_of(pairs.last(), uri);
        let inside = |d: DefineView| d.symbol.uri == other;
        let replace = |d: DefineView|
            if d.same_key(new) {
                new
            } else {
                d
            };
        lemma_filter_after_map(before, replace, inside);
        before.lemma_filter_push(new, inside);
        if with_define(before, new) != before.push(new) {
            assert(with_define(before, new) =~= before.map_values(replace));
        }
    }
}

/// Whether no file has two macros of one name.
pub open spec fn distinct_defines(defines: Seq<DefineView>) -> bool {
    forall|i: int, j: int|
        0 <= i < j < defines.len() ==> !(#[trigger] defines[i]).same_key(#[trigger] defines[j])
}

proof fn lemma_with_defines_distinct(
    defines: Seq<DefineView>,
    pairs: Seq<(CaptureView, CaptureView)>,
    uri: Seq<char>,
)
    requires
        distinct_defines(defines),
    ensures
        distinct_defines(with_defines(defines, pairs, uri)),
    decreases pairs.len(),
{
    if pairs.len() > 0 {
        lemma_with_defines_distinct(defines, pairs.drop_last(), uri);
        let before = with_defines(defines, pairs.drop_last(), uri);
        let after = with_defines(defines, pairs, uri);
        assert forall|i: int, j: int| 0 <= i < j < after.len() implies !(
        #[trigger] after[i]).same_key(#[trigger] after[j]) by {
            if j < before.len() {
                assert(!before[i].same_key(before[j]));
            }
        }
    }
}

/// A file never has two macros of one name, whatever is found at an address
/// and whatever name is changed.
pub proof fn lemma_macros_stay_distinct(
    index: Index,
    uri: Seq<char>,
    content: Option<Seq<char>>,
    name: Seq<char>,
    new_name: Seq<char>,
)
    requires
        distinct_defines(index.defines),
    ensures
        distinct_defines(index.handled(uri, content).defines),
        distinct_defines(index.renamed(uri, name, new_name).defines),
{
    if let Some(text) = content {
        let syntax = syntax_of(text);
        lemma_after_text(index, uri, kind_of(uri), text, syntax);
        lemma_with_defines_distinct(index.defines, all_pairs(syntax.defines), uri);
    }
}

/// Links that are there stay, and each new one connects its file.
proof fn lemma_links_grow(
    index: Index,
    uri: Seq<char>,
    targets: Seq<Seq<char>>,
    a: Seq<char>,
    b: Seq<char>,
)
    ensures
        index.files.connects(a, b) ==> index.with_links(uri, targets).files.connects(a, b),
        forall|k: int|
            0 <= k < targets.len() ==> index.with_links(uri, targets).files.connects(
                uri,
                #[trigger] targets[k],
            ),
    decreases targets.len(),
{
    if targets.len() > 0 {
        let rest = targets.drop_last();
        let target = targets.last();
        let before = index.with_links(uri, rest).files;
        let after = index.with_links(uri, targets).files;
        lemma_links_grow(index, uri, rest, a, b);
        lemma_link_connects(before, uri, target, a, b);
        assert forall|k: int| 0 <= k < targets.len() implies after.connects(
            uri,
            #[trigger] targets[k],
        ) by {
            if k < rest.len() {
                assert(rest[k] == targets[k]);
                lemma_link_connects(before, uri, target, uri, rest[k]);
            }
        }
    }
}

proof fn lemma_link_connects(
    files: Files,
    uri: Seq<char>,
    target: Seq<char>,
    a: Seq<char>,
    b: Seq<char>,
)
    ensures
        files.connects(a, b) ==> files.with_link(uri, target).connects(a, b),
        files.with_link(uri, target).connects(uri, target),
{
    let after = files.with_link(uri, target);
    if files.connects(a, b) && !files.links.contains((uri, target)) {
        graph::lemma_connected_monotone(files.links, (uri, target), a, b);
    }
    if !files.links.contains((uri, target)) {
        assert(after.links[after.links.len() - 1] == (uri, target));
    }
    assert(after.links.contains((uri, target)));
    assert(graph::is_path(after.links, seq![uri, target]));
}

/// What is found at an address leaves files connected that were, and connects
/// the file there with those that are read after it.
pub proof fn lemma_connections_kept(
    index: Index,
    uri: Seq<char>,
    content: Option<Seq<char>>,
    a: Seq<char>,
    b: Seq<char>,
)
    ensures
        index.files.connects(a, b) ==> index.handled(uri, content).files.connects(a, b),
        match index.after(uri, content) {
            Ok(targets) => forall|k: int|
                0 <= k < targets.len() ==> index.handled(uri, content).files.connects(
                    uri,
                    #[trigger] targets[k],
                ),
            Err(_) => true,
        },
{
    if let Some(text) = content {
        let known = index.indexed(uri, kind_of(uri), text, syntax_of(text));
        if let Ok(targets) = index.after(uri, content) {
            lemma_links_grow(known, uri, targets, a, b);
        }
    }
}

/// Connected files see the same.
proof fn lemma_same_view(files: Files, a: Seq<char>, b: Seq<char>, c: Seq<char>)
    requires
        files.connects(a, b),
    ensures
        files.connects(a, c) == files.connects(b, c),
{
    graph::lemma_connected_symmetric(files.links, a, b);
    if files.connects(a, c) {
        graph::lemma_connected_transitive(files.links, b, a, c);
    }
    if files.connects(b, c) {
        graph::lemma_connected_transitive(files.links, a, b, c);
    }
}

/// From connected files the same is found: the same labels, the same
/// references and the same macros.
pub proof fn lemma_found_alike(index: Index, a: Seq<char>, b: Seq<char>, name: Seq<char>)
    requires
        index.files.connects(a, b),
    ensures
        places(index.labels, index.files, a, name) == places(index.labels, index.files, b, name),
        places(index.references, index.files, a, name) == places(
            index.references,
            index.files,
            b,
            name,
        ),
        define_place(index.defines, index.files, a, name) == define_place(
            index.defines,
            index.files,
            b,
            name,
        ),
{
    let files = index.files;
    assert forall|c: Seq<char>| files.connects(a, c) == #[trigger] files.connects(b, c) by {
        lemma_same_view(files, a, b, c);
    }
    assert((|s: SymbolView| s.is_visible(files, a, name)) =~= (|s: SymbolView|
        s.is_visible(files, b, name)));
    assert((|d: DefineView| d.symbol.is_visible(files, a, name)) =~= (|d: DefineView|
        d.symbol.is_visible(files, b, name)));
}

/// Where a symbol is among those that are found.
proof fn lemma_found_exactly(
    symbols: Seq<SymbolView>,
    files: Files,
    uri: Seq<char>,
    name: Seq<char>,
    symbol: SymbolView,
)
    requires
        symbols.contains(symbol),
        symbol.is_visible(files, uri, name),
    ensures
        places(symbols, files, uri, name).contains(symbol.location()),
{
    let visible = |s: SymbolView| s.is_visible(files, uri, name);
    let k = choose|k: int| 0 <= k < symbols.len() && symbols[k] == symbol;
    symbols.lemma_filter_contains(visible, k);
    let found = symbols.filter(visible);
    let j = choose|j: int| 0 <= j < found.len() && found[j] == symbol;
    assert(places(symbols, files, uri, name)[j] == symbol.location());
}

/// What is found from a label is found both ways: where a reference to it in
/// another file is found from the file of the label, the label is found from
/// the file of the reference.
pub proof fn lemma_found_both_ways(index: Index, label: SymbolView, reference: SymbolView)
    requires
        index.labels.contains(label),
        index.references.contains(reference),
        label.name == reference.name,
        index.files.connects(label.uri, reference.uri),
    ensures
        places(index.references, index.files, label.uri, label.name).contains(
            reference.location(),
        ),
        places(index.labels, index.files, reference.uri, reference.name).contains(
            label.location(),
        ),
{
    graph::lemma_connected_symmetric(index.files.links, label.uri, reference.uri);
    lemma_found_exactly(index.references, index.files, label.uri, label.name, reference);
    lemma_found_exactly(index.labels, index.files, reference.uri, reference.name, label);
}

/// A symbol is found from its own file.
pub proof fn lemma_found_at_home(symbols: Seq<SymbolView>, files: Files, symbol: SymbolView)
    requires
        symbols.contains(symbol),
    ensures
        places(symbols, files, symbol.uri, symbol.name).contains(symbol.location()),
{
    graph::lemma_connected_reflexive(files.links, symbol.uri);
    lemma_found_exactly(symbols, files, symbol.uri, symbol.name, symbol);
}

/// The places that a sound index gives for a name are places at which the
/// texts read that name, in files that are connected with the one it was
/// asked from.
pub proof fn lemma_places_read(index: Index, uri: Seq<char>, name: Seq<char>, k: int)
    requires
        index.is_sound(),
        0 <= k < index.name_places(uri, name).len(),
    ensures
        ({
            let place = index.name_places(uri, name)[k];
            &&& index.files.connects(uri, place.uri)
            &&& index.files.texts.contains_key(place.uri)
            &&& reads(index.files.texts[place.uri], place.range, name)
        }),
{
    let visible = |s: SymbolView| s.is_visible(index.files, uri, name);
    let labels = index.labels.filter(visible);
    if k < labels.len() {
        index.labels.lemma_filter_pred(visible, k);
        assert(labels.contains(labels[k]));
        index.labels.lemma_filter_contains_rev(visible, labels[k]);
        let j = choose|j: int| 0 <= j < index.labels.len() && index.labels[j] == labels[k];
        assert(index.symbols()[j] == labels[k]);
    } else {
        let references = index.references.filter(visible);
        let at = k - labels.len();
        index.references.lemma_filter_pred(visible, at);
        assert(references.contains(references[at]));
        index.references.lemma_filter_contains_rev(visible, references[at]);
        let j = choose|j: int|
            0 <= j < index.references.len() && index.references[j] == references[at];
        assert(index.symbols()[index.labels.len() + j] == references[at]);
    }
}

/// That a name can be changed is announced exactly where changing it takes
/// an edit.
pub proof fn lemma_announced_exactly(
    index: Index,
    uri: Seq<char>,
    node: NodeView,
    new_name: Seq<char>,
)
    ensures
        index.name_to_change(uri, Some(node)) is Some <==> edits_of(
            index.name_places(uri, node.text),
            new_name,
        ) != Map::<Seq<char>, Seq<TextEditView>>::empty(),
{
    let all = index.name_places(uri, node.text);
    let edits = edits_of(all, new_name);
    if all.len() > 0 {
        assert(has_place_in(all, all[0].uri));
        assert(edits.contains_key(all[0].uri));
    } else {
        assert(edits =~= Map::empty());
    }
}

/// Changing a name takes an edit at each place of the name, in the file of
/// that place, and no other edit.
pub proof fn lemma_edits_are_places(all: Seq<LocationView>, new_name: Seq<char>, k: int)
    requires
        0 <= k < all.len(),
    ensures
        ({
            let edits = edits_of(all, new_name);
            let inside = |p: LocationView| p.uri == all[k].uri;
            &&& edits.contains_key(all[k].uri)
            &&& edits[all[k].uri].contains(edit_at(all[k], new_name))
            &&& edits[all[k].uri].len() == all.filter(inside).len()
            &&& forall|j: int|
                0 <= j < edits[all[k].uri].len() ==> {
                    let edit = #[trigger] edits[all[k].uri][j];
                    &&& edit.new_text == new_name
                    &&& all.contains(LocationView { uri: all[k].uri, range: edit.range })
                }
        }),
{
    let place = all[k];
    let edits = edits_of(all, new_name);
    let inside = |p: LocationView| p.uri == place.uri;
    let kept = all.filter(inside);
    assert(has_place_in(all, place.uri));
    all.lemma_filter_contains(inside, k);
    assert(kept.contains(place));
    let j = choose|j: int| 0 <= j < kept.len() && kept[j] == place;
    assert(edits[place.uri][j] == edit_at(place, new_name));
    assert forall|j: int| 0 <= j < edits[place.uri].len() implies ({
        let edit = #[trigger] edits[place.uri][j];
        &&& edit.new_text == new_name
        &&& all.contains(LocationView { uri: place.uri, range: edit.range })
    }) by {
        all.lemma_filter_pred(inside, j);
        assert(kept.contains(kept[j]));
        all.lemma_filter_contains_rev(inside, kept[j]);
        assert(kept[j] == (LocationView { uri: place.uri, range: edits[place.uri][j].range }));
    }
}

/// How many elements of a changed sequence a filter keeps.
proof fn lemma_count_changed<A>(
    all: Seq<A>,
    f: spec_fn(A) -> A,
    after: spec_fn(A) -> bool,
    first: spec_fn(A) -> bool,
    second: spec_fn(A) -> bool,
)
    requires
        forall|x: A| #[trigger] after(f(x)) == (first(x) || second(x)),
        forall|x: A| !(#[trigger] first(x) && #[trigger] second(x)),
    ensures
        all.map_values(f).filter(after).len() == all.filter(first).len() + all.filter(
            second,
        ).len(),
    decreases all.len(),
{
    reveal(Seq::filter);
    if all.len() > 0 {
        let rest = all.drop_last();
        lemma_count_changed(rest, f, after, first, second);
        assert(all =~= rest.push(all.last()));
        assert(all.map_values(f) =~= rest.map_values(f).push(f(all.last())));
        rest.lemma_filter_push(all.last(), first);
        rest.lemma_filter_push(all.last(), second);
        rest.map_values(f).lemma_filter_push(f(all.last()), after);
        assert(!(first(all.last()) && second(all.last())));
    } else {
        assert(all.map_values(f) =~= all);
    }
}

proof fn lemma_count_renamed(
    index: Index,
    symbols: Seq<SymbolView>,
    uri: Seq<char>,
    name: Seq<char>,
    new_name: Seq<char>,
)
    requires
        name != new_name,
    ensures
        ({
            let after = visible_renamed(symbols, index.files, uri, name, new_name);
            let files = index.renamed(uri, name, new_name).files;
            &&& places(after, files, uri, name).len() == 0
            &&& places(after, files, uri, new_name).len() == places(
                symbols,
                index.files,
                uri,
                name,
            ).len() + places(symbols, index.files, uri, new_name).len()
        }),
{
    let files = index.renamed(uri, name, new_name).files;
    let f = |s: SymbolView|
        if index.files.connects(uri, s.uri) {
            renamed_at_home(symbols, name, new_name, s)
        } else {
            s
        };
    let after = visible_renamed(symbols, index.files, uri, name, new_name);
    assert(after =~= symbols.map_values(f));
    let old_name = |s: SymbolView| s.is_visible(index.files, uri, name);
    let other_name = |s: SymbolView| s.is_visible(index.files, uri, new_name);
    let nothing = |s: SymbolView| false;
    let old_after = |s: SymbolView| s.is_visible(files, uri, name);
    let new_after = |s: SymbolView| s.is_visible(files, uri, new_name);
    assert(files.links == index.files.links);
    lemma_count_changed(symbols, f, old_after, nothing, nothing);
    symbols.lemma_all_neg_filter_empty(nothing);
    lemma_count_changed(symbols, f, new_after, old_name, other_name);
}

/// Once a name was changed, the old name stands nowhere, and the new one as
/// often as both did before.
pub proof fn lemma_name_is_replaced(
    index: Index,
    uri: Seq<char>,
    name: Seq<char>,
    new_name: Seq<char>,
)
    requires
        name != new_name,
    ensures
        ({
            let after = index.renamed(uri, name, new_name);
            &&& after.name_places(uri, name).len() == 0
            &&& after.name_places(uri, new_name).len() == index.name_places(uri, name).len()
                + index.name_places(uri, new_name).len()
        }),
{
    lemma_count_renamed(index, index.labels, uri, name, new_name);
    lemma_count_renamed(index, index.references, uri, name, new_name);
}

/// An editor that makes the edits it was given, and hands over the text that
/// it got, tells nothing new.
pub proof fn lemma_edits_are_known(
    index: Index,
    uri: Seq<char>,
    name: Seq<char>,
    new_name: Seq<char>,
    file: Seq<char>,
    text: Seq<char>,
)
    requires
        index.files.text(file) == Some(text),
        edits_of(index.name_places(uri, name), new_name).contains_key(file),
    ensures
        ({
            let after = index.renamed(uri, name, new_name);
            let received = Some(
                edited(text, edits_of(index.name_places(uri, name), new_name)[file]),
            );
            &&& after.handled(file, received) == after
            &&& after.after(file, received) == Ok::<Seq<Seq<char>>, Seq<char>>(Seq::empty())
        }),
{
    let after = index.renamed(uri, name, new_name);
    lemma_known_text(
        after,
        file,
        edited(text, edits_of(index.name_places(uri, name), new_name)[file]),
    );
}

/// Changing a name leaves alone the files in which it does not stand, all
/// connections, and all macros.
pub proof fn lemma_rename_elsewhere(
    index: Index,
    uri: Seq<char>,
    name: Seq<char>,
    new_name: Seq<char>,
    file: Seq<char>,
)
    requires
        !has_place_in(index.name_places(uri, name), file),
    ensures
        ({
            let after = index.renamed(uri, name, new_name);
            &&& after.files.text(file) == index.files.text(file)
            &&& after.files.links == index.files.links
            &&& after.files.include_root == index.files.include_root
            &&& after.defines == index.defines
        }),
{
}

/// Nothing but files that are indexed is read, and what is visited is not
/// known yet.
pub proof fn lemma_what_is_read(opening: OpeningView, index: Index)
    ensures
        match opening.action(index) {
            ActionView::Follow(uri) => opening.pending.contains(uri) && !(kind_of(uri) is Other),
            ActionView::Visit(uri) => {
                &&& opening.neighbours.contains(uri)
                &&& !(kind_of(uri) is Other)
                &&& !index.files.texts.contains_key(uri)
            },
            _ => true,
        },
{
    lemma_last_pending(opening.pending);
    lemma_first_unknown(opening.neighbours, index);
}

proof fn lemma_last_pending(pending: Seq<Seq<char>>)
    ensures
        indexed_last(pending).len() > 0 ==> {
            &&& pending.contains(indexed_last(pending).last())
            &&& !(kind_of(indexed_last(pending).last()) is Other)
        },
        indexed_last(pending).len() <= pending.len(),
    decreases pending.len(),
{
    if pending.len() > 0 {
        let rest = pending.drop_last();
        lemma_last_pending(rest);
        let last = indexed_last(pending).last();
        if kind_of(pending.last()) is Other {
            if indexed_last(rest).len() > 0 {
                let k = choose|k: int| 0 <= k < rest.len() && rest[k] == last;
                assert(pending[k] == last);
            }
        } else {
            assert(pending[pending.len() - 1] == last);
        }
    }
}

proof fn lemma_first_unknown(neighbours: Seq<Seq<char>>, index: Index)
    ensures
        unknown_first(neighbours, index).len() > 0 ==> {
            let first = unknown_first(neighbours, index).first();
            &&& neighbours.contains(first)
            &&& !(kind_of(first) is Other)
            &&& !index.files.texts.contains_key(first)
        },
        unknown_first(neighbours, index).len() <= neighbours.len(),
    decreases neighbours.len(),
{
    if neighbours.len() > 0 {
        let rest = neighbours.drop_first();
        lemma_first_unknown(rest, index);
        let first = unknown_first(neighbours, index).first();
        if unknown_first(neighbours, index) == neighbours {
            assert(neighbours[0] == first);
        } else if unknown_first(rest, index).len() > 0 {
            let k = choose|k: int| 0 <= k < rest.len() && rest[k] == first;
            assert(neighbours[k + 1] == first);
        }
    }
}

/// Whether nothing is left to be done shows at once, and each step leaves
/// less to be done: fewer pending files, then no directory to list, then
/// fewer files of it.
pub proof fn lemma_steps_end(opening: OpeningView, index: Index)
    ensures
        ({
            let rest = opening.rest(index);
            match opening.action(index) {
                ActionView::Follow(_) => rest.pending.len() < opening.pending.len()
                    && rest.lists == opening.lists && rest.neighbours == opening.neighbours,
                ActionView::Visit(_) => rest.pending.len() == 0 && !rest.lists
                    && rest.neighbours.len() < opening.neighbours.len(),
                ActionView::Done => rest.pending.len() == 0 && !rest.lists
                    && rest.neighbours.len() == 0,
                _ => opening.lists && !rest.lists && rest.neighbours == opening.neighbours,
            }
        }),
{
    lemma_last_pending(opening.pending);
    lemma_first_unknown(opening.neighbours, index);
}

/// The files of `disk` whose text there is not the one that is known.
pub open spec fn unread(index: Index, disk: Map<Seq<char>, Seq<char>>) -> Set<Seq<char>> {
    disk.dom().filter(|uri: Seq<char>| index.files.text(uri) != Some(disk[uri]))
}

/// While the files that can be read stay as they are, following them comes to
/// an end, even where they name each other: each file that is followed leaves
/// fewer texts to be learned, or else as many texts and fewer pending files.
pub proof fn lemma_following_ends(
    index: Index,
    opening: OpeningView,
    disk: Map<Seq<char>, Seq<char>>,
    uri: Seq<char>,
)
    requires
        disk.dom().finite(),
        opening.action(index) == ActionView::Follow(uri),
    ensures
        ({
            let content = if disk.contains_key(uri) {
                Some(disk[uri])
            } else {
                None
            };
            let after = index.handled(uri, content);
            let added = match index.after(uri, content) {
                Ok(targets) => targets,
                Err(_) => Seq::empty(),
            };
            ||| unread(after, disk).len() < unread(index, disk).len()
            ||| {
                &&& unread(after, disk) == unread(index, disk)
                &&& (opening.rest(index).pending + added).len() < opening.pending.len()
            }
        }),
{
    let content = if disk.contains_key(uri) {
        Some(disk[uri])
    } else {
        None
    };
    let after = index.handled(uri, content);
    let before = unread(index, disk);
    lemma_steps_end(opening, index);
    disk.dom().lemma_len_filter(|u: Seq<char>| index.files.text(u) != Some(disk[u]));
    assert forall|other: Seq<char>| other != uri implies #[trigger] after.files.text(other)
        == index.files.text(other) by {
        lemma_other_files_kept(index, uri, content, other);
    }
    if after.files.text(uri) == index.files.text(uri) {
        if index.after(uri, content) != Ok::<Seq<Seq<char>>, Seq<char>>(Seq::empty()) {
            lemma_progress(index, uri, content);
        }
        assert(unread(after, disk) =~= before);
    } else {
        if let Some(text) = content {
            lemma_after_text(index, uri, kind_of(uri), text, syntax_of(text));
        }
        assert(unread(after, disk) =~= before.remove(uri));
        assert(before.contains(uri));
    }
}

} // verus!
