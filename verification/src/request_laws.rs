//! What is to be expected of the answers to requests, of a change of a name,
//! and of the order in which files are read.

use crate::assoc;
use crate::backend::{bindings_path, DefinitionView, FileContent, RequestError, SettingsReply};
use crate::data::{followed, kind_of, Index, Unresolved};
use crate::edit::{
    column_shift, edited, edited_at, edited_prefix, inserted_at, moved, moved_range, offset_of,
    removed_at,
};
use crate::file_depot::Files;
use crate::graph;
use crate::includes_depot::DefineView;
use crate::loader::{indexed_last, unknown_first, ActionView, OpeningView};
use crate::rename::{edits_in, edits_of, has_place_in, lemma_no_place, visible_renamed};
use crate::soundness::lemma_shift_add;
use crate::symbols::{all_renamed, places, SymbolView};
use crate::syntax::{converted_range, node_at_point, NodeRange, NodeView};
use crate::text_laws::lemma_text_width;
use crate::tracking::lemma_no_edits;
use crate::types::{LocationView, Position, Range, TextEditView};
use crate::url;
use vstd::prelude::*;
use vstd::string::*;
use vstd::utf8::encode_utf8;

verus! {

/// The places of a name, in the words of the index itself: those of the
/// symbols of that name in the files that links connect with the one asked
/// from, in their order.
pub proof fn lemma_places(symbols: Seq<SymbolView>, files: Files, uri: Seq<char>, name: Seq<char>)
    ensures
        places(symbols, files, uri, name) == symbols.filter(
            |s: SymbolView| s.name == name && graph::connected(files.links, uri, s.uri),
        ).map_values(|s: SymbolView| LocationView { uri: s.uri, range: s.range }),
{
    let f = |s: SymbolView| s.is_visible(files, uri, name);
    let g = |s: SymbolView| s.name == name && graph::connected(files.links, uri, s.uri);
    assert(f =~= g);
    assert(places(symbols, files, uri, name) =~= symbols.filter(g).map_values(
        |s: SymbolView| LocationView { uri: s.uri, range: s.range },
    ));
}

/// A place is among those of a name exactly where a symbol of that name, in a
/// file that links connect with the one asked from, stands there.
pub proof fn lemma_place_found(
    symbols: Seq<SymbolView>,
    files: Files,
    uri: Seq<char>,
    name: Seq<char>,
    place: LocationView,
)
    ensures
        places(symbols, files, uri, name).contains(place) <==> exists|k: int|
            {
                &&& 0 <= k < symbols.len()
                &&& (#[trigger] symbols[k]).name == name
                &&& graph::connected(files.links, uri, symbols[k].uri)
                &&& symbols[k].uri == place.uri
                &&& symbols[k].range == place.range
            },
{
    let visible = |s: SymbolView| s.is_visible(files, uri, name);
    let kept = symbols.filter(visible);
    let all = places(symbols, files, uri, name);
    if all.contains(place) {
        let j = choose|j: int| 0 <= j < all.len() && all[j] == place;
        symbols.lemma_filter_pred(visible, j);
        assert(kept.contains(kept[j]));
        symbols.lemma_filter_contains_rev(visible, kept[j]);
        let k = choose|k: int| 0 <= k < symbols.len() && symbols[k] == kept[j];
        assert(symbols[k].name == name);
    }
    if exists|k: int|
        {
            &&& 0 <= k < symbols.len()
            &&& (#[trigger] symbols[k]).name == name
            &&& graph::connected(files.links, uri, symbols[k].uri)
            &&& symbols[k].uri == place.uri
            &&& symbols[k].range == place.range
        } {
        let k = choose|k: int|
            {
                &&& 0 <= k < symbols.len()
                &&& (#[trigger] symbols[k]).name == name
                &&& graph::connected(files.links, uri, symbols[k].uri)
                &&& symbols[k].uri == place.uri
                &&& symbols[k].range == place.range
            };
        symbols.lemma_filter_contains(visible, k);
        let j = choose|j: int| 0 <= j < kept.len() && kept[j] == symbols[k];
        assert(all[j] == place);
    }
}

/// References are listed for every node whose parent is a devicetree node, in
/// any file, and for no other: those of its name in the connected files, in
/// their order.
pub proof fn lemma_references_listed(index: Index, uri: Seq<char>, node: NodeView)
    ensures
        index.references_to(uri, None) is None,
        node.parent_kind != Some("node"@) ==> index.references_to(uri, Some(node)) is None,
        node.parent_kind == Some("node"@) ==> index.references_to(uri, Some(node)) == Some(
            index.references.filter(
                |s: SymbolView|
                    s.name == node.text && graph::connected(index.files.links, uri, s.uri),
            ).map_values(|s: SymbolView| LocationView { uri: s.uri, range: s.range }),
        ),
{
    lemma_places(index.references, index.files, uri, node.text);
}

/// A place is listed as a reference exactly where a reference of that name, in
/// a connected file, stands there.
pub proof fn lemma_reference_listed(
    index: Index,
    uri: Seq<char>,
    node: NodeView,
    place: LocationView,
)
    requires
        node.parent_kind == Some("node"@),
    ensures
        index.references_to(uri, Some(node)) is Some,
        index.references_to(uri, Some(node))->0.contains(place) <==> exists|k: int|
            {
                &&& 0 <= k < index.references.len()
                &&& (#[trigger] index.references[k]).name == node.text
                &&& graph::connected(index.files.links, uri, index.references[k].uri)
                &&& index.references[k].uri == place.uri
                &&& index.references[k].range == place.range
            },
{
    lemma_place_found(index.references, index.files, uri, node.text, place);
}

/// The definition of an identifier in a reference are the labels of its name
/// in the connected files: none, the only one, or all of them in their order.
pub proof fn lemma_label_definition(index: Index, uri: Seq<char>, node: NodeView)
    requires
        node.kind == "identifier"@,
        node.parent_kind == Some("reference"@),
    ensures
        ({
            let found = index.labels.filter(
                |s: SymbolView|
                    s.name == node.text && graph::connected(index.files.links, uri, s.uri),
            ).map_values(|s: SymbolView| LocationView { uri: s.uri, range: s.range });
            match index.definition(uri, Some(node)) {
                None => found.len() == 0,
                Some(DefinitionView::Scalar(place)) => found.len() == 1 && found[0] == place,
                Some(DefinitionView::Array(all)) => found.len() > 1 && found == all,
            }
        }),
{
    lemma_places(index.labels, index.files, uri, node.text);
}

/// The definition of any other identifier, whatever its parent is, is the
/// first macro of its name in the connected files. There is none exactly where
/// there is no such macro.
pub proof fn lemma_macro_definition(index: Index, uri: Seq<char>, node: NodeView)
    requires
        node.kind == "identifier"@,
        node.parent_kind != Some("reference"@),
    ensures
        match index.definition(uri, Some(node)) {
            None => forall|k: int|
                0 <= k < index.defines.len() ==> !((#[trigger] index.defines[k]).symbol.name
                    == node.text && graph::connected(
                    index.files.links,
                    uri,
                    index.defines[k].symbol.uri,
                )),
            Some(DefinitionView::Scalar(place)) => exists|k: int|
                {
                    &&& 0 <= k < index.defines.len()
                    &&& (#[trigger] index.defines[k]).symbol.name == node.text
                    &&& graph::connected(index.files.links, uri, index.defines[k].symbol.uri)
                    &&& index.defines[k].symbol.uri == place.uri
                    &&& index.defines[k].symbol.range == place.range
                    &&& forall|j: int|
                        0 <= j < k ==> !((#[trigger] index.defines[j]).symbol.name == node.text
                            && graph::connected(
                            index.files.links,
                            uri,
                            index.defines[j].symbol.uri,
                        ))
                },
            Some(DefinitionView::Array(_)) => false,
        },
{
    let visible = |d: DefineView| d.symbol.is_visible(index.files, uri, node.text);
    lemma_first_kept(index.defines, visible);
    if index.defines.filter(visible).len() > 0 {
        let k = choose|k: int|
            {
                &&& 0 <= k < index.defines.len()
                &&& visible(#[trigger] index.defines[k])
                &&& index.defines[k] == index.defines.filter(visible)[0]
                &&& forall|j: int| 0 <= j < k ==> !visible(#[trigger] index.defines[j])
            };
        assert forall|j: int| 0 <= j < k implies !((#[trigger] index.defines[j]).symbol.name
            == node.text && graph::connected(
            index.files.links,
            uri,
            index.defines[j].symbol.uri,
        )) by {
            assert(!visible(index.defines[j]));
        }
        assert(index.defines[k].symbol.name == node.text);
    } else {
        assert forall|k: int| 0 <= k < index.defines.len() implies !((
        #[trigger] index.defines[k]).symbol.name == node.text && graph::connected(
            index.files.links,
            uri,
            index.defines[k].symbol.uri,
        )) by {
            assert(!visible(index.defines[k]));
        }
    }
}

/// The first element that a filter keeps is the first one that it would keep.
proof fn lemma_first_kept<A>(all: Seq<A>, keep: spec_fn(A) -> bool)
    ensures
        all.filter(keep).len() == 0 ==> forall|k: int|
            0 <= k < all.len() ==> !keep(#[trigger] all[k]),
        all.filter(keep).len() > 0 ==> exists|k: int|
            {
                &&& 0 <= k < all.len()
                &&& keep(#[trigger] all[k])
                &&& all[k] == all.filter(keep)[0]
                &&& forall|j: int| 0 <= j < k ==> !keep(#[trigger] all[j])
            },
    decreases all.len(),
{
    reveal(Seq::filter);
    if all.len() > 0 {
        let rest = all.drop_last();
        let last = all.len() - 1;
        lemma_first_kept(rest, keep);
        assert(all =~= rest.push(all.last()));
        rest.lemma_filter_push(all.last(), keep);
        assert forall|k: int| 0 <= k < last implies #[trigger] all[k] == rest[k] by {
        }
        if rest.filter(keep).len() > 0 {
            let k = choose|k: int|
                {
                    &&& 0 <= k < rest.len()
                    &&& keep(#[trigger] rest[k])
                    &&& rest[k] == rest.filter(keep)[0]
                    &&& forall|j: int| 0 <= j < k ==> !keep(#[trigger] rest[j])
                };
            assert(all[k] == rest[k]);
            assert forall|j: int| 0 <= j < k implies !keep(#[trigger] all[j]) by {
                assert(all[j] == rest[j]);
            }
        } else {
            assert forall|j: int| 0 <= j < last implies !keep(#[trigger] all[j]) by {
                assert(all[j] == rest[j]);
            }
            assert(all[last] == all.last());
        }
    }
}

/// What is no identifier has no definition.
pub proof fn lemma_no_definition(index: Index, uri: Seq<char>, node: NodeView)
    requires
        node.kind != "identifier"@,
    ensures
        index.definition(uri, Some(node)) is None,
        index.definition(uri, None) is None,
{
}

/// A name can be changed exactly where a label or a reference in a connected
/// file has it, whatever node it stands in.
pub proof fn lemma_name_to_change(index: Index, uri: Seq<char>, node: NodeView)
    ensures
        index.name_to_change(uri, None) is None,
        index.name_to_change(uri, Some(node)) is Some ==> index.name_to_change(uri, Some(node))
            == Some(node),
        index.name_to_change(uri, Some(node)) is Some <==> {
            ||| exists|k: int|
                0 <= k < index.labels.len() && (#[trigger] index.labels[k]).name == node.text
                    && graph::connected(index.files.links, uri, index.labels[k].uri)
            ||| exists|k: int|
                0 <= k < index.references.len() && (#[trigger] index.references[k]).name
                    == node.text && graph::connected(
                    index.files.links,
                    uri,
                    index.references[k].uri,
                )
        },
{
    lemma_some_place(index.labels, index.files, uri, node.text);
    lemma_some_place(index.references, index.files, uri, node.text);
}

proof fn lemma_some_place(symbols: Seq<SymbolView>, files: Files, uri: Seq<char>, name: Seq<char>)
    ensures
        places(symbols, files, uri, name).len() > 0 <==> exists|k: int|
            0 <= k < symbols.len() && (#[trigger] symbols[k]).name == name && graph::connected(
                files.links,
                uri,
                symbols[k].uri,
            ),
{
    let all = places(symbols, files, uri, name);
    if all.len() > 0 {
        lemma_place_found(symbols, files, uri, name, all[0]);
        assert(all.contains(all[0]));
    }
    if exists|k: int|
        0 <= k < symbols.len() && (#[trigger] symbols[k]).name == name && graph::connected(
            files.links,
            uri,
            symbols[k].uri,
        ) {
        let k = choose|k: int|
            0 <= k < symbols.len() && (#[trigger] symbols[k]).name == name && graph::connected(
                files.links,
                uri,
                symbols[k].uri,
            );
        lemma_place_found(symbols, files, uri, name, symbols[k].location());
    }
}

/// The node that a request is about is the one at its position in the text of
/// the file.
pub proof fn lemma_node_at(index: Index, uri: Seq<char>, position: Position)
    ensures
        index.node_at(uri, position) == if index.files.texts.contains_key(uri) && encode_utf8(
            index.files.texts[uri],
        ).len() <= 0xffff_fffe {
            node_at_point(index.files.texts[uri], position.line, position.character)
        } else {
            None
        },
{
    lemma_text_width(index.files.texts[uri]);
}

/// Rows become lines, and columns stay columns.
pub proof fn lemma_converted_range(range: NodeRange)
    requires
        range.0 <= u32::MAX,
        range.1 <= u32::MAX,
        range.2 <= u32::MAX,
        range.3 <= u32::MAX,
    ensures
        converted_range(range).start.line == range.0,
        converted_range(range).start.character == range.1,
        converted_range(range).end.line == range.2,
        converted_range(range).end.character == range.3,
{
}

proof fn lemma_edits_of_symbols(
    symbols: Seq<SymbolView>,
    files: Files,
    uri: Seq<char>,
    name: Seq<char>,
    new_name: Seq<char>,
    file: Seq<char>,
)
    ensures
        edits_in(places(symbols, files, uri, name), file, new_name) == symbols.filter(
            |s: SymbolView|
                s.name == name && s.uri == file && graph::connected(files.links, uri, s.uri),
        ).map_values(|s: SymbolView| TextEditView { range: s.range, new_text: new_name }),
    decreases symbols.len(),
{
    let visible = |s: SymbolView| s.is_visible(files, uri, name);
    let inside = |p: LocationView| p.uri == file;
    let own = |s: SymbolView|
        s.name == name && s.uri == file && graph::connected(files.links, uri, s.uri);
    let put = |s: SymbolView| TextEditView { range: s.range, new_text: new_name };
    if symbols.len() == 0 {
        reveal(Seq::filter);
        assert(places(symbols, files, uri, name) =~= Seq::empty());
        assert(edits_in(places(symbols, files, uri, name), file, new_name) =~= Seq::empty());
        assert(symbols.filter(own).map_values(put) =~= Seq::empty());
    } else {
        let rest = symbols.drop_last();
        let last = symbols.last();
        lemma_edits_of_symbols(rest, files, uri, name, new_name, file);
        assert(symbols =~= rest.push(last));
        rest.lemma_filter_push(last, visible);
        rest.lemma_filter_push(last, own);
        let before = places(rest, files, uri, name);
        if visible(last) {
            assert(places(symbols, files, uri, name) =~= before.push(last.location()));
            before.lemma_filter_push(last.location(), inside);
        } else {
            assert(places(symbols, files, uri, name) =~= before);
        }
        let edits = edits_in(places(symbols, files, uri, name), file, new_name);
        if own(last) {
            assert(edits =~= edits_in(before, file, new_name).push(put(last)));
            assert(symbols.filter(own).map_values(put) =~= rest.filter(own).map_values(put).push(
                put(last),
            ));
        } else {
            assert(edits =~= edits_in(before, file, new_name));
            assert(symbols.filter(own).map_values(put) =~= rest.filter(own).map_values(put));
        }
    }
}

/// The edits to a file that a change of a name takes: the new name at each
/// label, then at each reference, that has the name in that file, if the file
/// is connected with the one asked from. Other files get none.
pub proof fn lemma_edits_to_file(
    index: Index,
    uri: Seq<char>,
    name: Seq<char>,
    new_name: Seq<char>,
    file: Seq<char>,
)
    ensures
        ({
            let edits = index.labels.filter(
                |s: SymbolView|
                    s.name == name && s.uri == file && graph::connected(
                        index.files.links,
                        uri,
                        s.uri,
                    ),
            ).map_values(|s: SymbolView| TextEditView { range: s.range, new_text: new_name })
                + index.references.filter(
                |s: SymbolView|
                    s.name == name && s.uri == file && graph::connected(
                        index.files.links,
                        uri,
                        s.uri,
                    ),
            ).map_values(|s: SymbolView| TextEditView { range: s.range, new_text: new_name });
            let changes = edits_of(index.name_places(uri, name), new_name);
            &&& changes.contains_key(file) <==> edits.len() > 0
            &&& changes.contains_key(file) ==> changes[file] == edits
            &&& edits_in(index.name_places(uri, name), file, new_name) == edits
        }),
{
    let all = index.name_places(uri, name);
    let labels = places(index.labels, index.files, uri, name);
    let references = places(index.references, index.files, uri, name);
    let inside = |p: LocationView| p.uri == file;
    Seq::filter_distributes_over_add(labels, references, inside);
    lemma_edits_of_symbols(index.labels, index.files, uri, name, new_name, file);
    lemma_edits_of_symbols(index.references, index.files, uri, name, new_name, file);
    assert(edits_in(all, file, new_name) =~= edits_in(labels, file, new_name) + edits_in(
        references,
        file,
        new_name,
    ));
    if has_place_in(all, file) {
        let k = choose|k: int| 0 <= k < all.len() && (#[trigger] all[k]).uri == file;
        all.lemma_filter_contains(inside, k);
    } else {
        lemma_no_place(all, file, new_name);
    }
}

/// A change of a name changes each text by just these edits, and leaves all
/// macros, links and the directory of bindings alone.
pub proof fn lemma_texts_renamed(
    index: Index,
    uri: Seq<char>,
    name: Seq<char>,
    new_name: Seq<char>,
    file: Seq<char>,
)
    ensures
        ({
            let after = index.renamed(uri, name, new_name);
            let edits = index.labels.filter(
                |s: SymbolView|
                    s.name == name && s.uri == file && graph::connected(
                        index.files.links,
                        uri,
                        s.uri,
                    ),
            ).map_values(|s: SymbolView| TextEditView { range: s.range, new_text: new_name })
                + index.references.filter(
                |s: SymbolView|
                    s.name == name && s.uri == file && graph::connected(
                        index.files.links,
                        uri,
                        s.uri,
                    ),
            ).map_values(|s: SymbolView| TextEditView { range: s.range, new_text: new_name });
            &&& after.files.texts.dom() == index.files.texts.dom()
            &&& index.files.texts.contains_key(file) ==> after.files.texts[file] == edited(
                index.files.texts[file],
                edits,
            )
            &&& after.files.links == index.files.links
            &&& after.files.include_root == index.files.include_root
            &&& after.defines == index.defines
        }),
{
    let after = index.renamed(uri, name, new_name);
    lemma_edits_to_file(index, uri, name, new_name, file);
    assert(after.files.texts.dom() =~= index.files.texts.dom());
    let all = index.name_places(uri, name);
    if !has_place_in(all, file) {
        lemma_no_place(all, file, new_name);
        lemma_no_edits(index.files.texts[file]);
    }
}

proof fn lemma_table_renamed(
    symbols: Seq<SymbolView>,
    files: Files,
    uri: Seq<char>,
    name: Seq<char>,
    new_name: Seq<char>,
    k: int,
)
    requires
        0 <= k < symbols.len(),
    ensures
        ({
            let after = visible_renamed(symbols, files, uri, name, new_name);
            let reached = graph::connected(files.links, uri, symbols[k].uri);
            &&& after.len() == symbols.len()
            &&& after[k].uri == symbols[k].uri
            &&& after[k].name == if symbols[k].name == name && reached {
                new_name
            } else {
                symbols[k].name
            }
            &&& after[k].range == if reached && name != new_name {
                moved_range(
                    symbols[k].range,
                    symbols.filter(
                        |s: SymbolView| s.uri == symbols[k].uri && s.name == name,
                    ).map_values(
                        |s: SymbolView| TextEditView { range: s.range, new_text: new_name },
                    ),
                )
            } else {
                symbols[k].range
            }
        }),
{
}

/// A change of a name names anew the labels and the references that have it in
/// a connected file, and no others. Each stays in its file and at its place of
/// the index. A label is moved by what the labels of the name on its line take
/// up more, and a reference by what the references do.
pub proof fn lemma_symbols_renamed(
    index: Index,
    uri: Seq<char>,
    name: Seq<char>,
    new_name: Seq<char>,
    k: int,
)
    ensures
        ({
            let after = index.renamed(uri, name, new_name);
            &&& after.labels.len() == index.labels.len()
            &&& after.references.len() == index.references.len()
            &&& 0 <= k < index.labels.len() ==> {
                let s = index.labels[k];
                let reached = graph::connected(index.files.links, uri, s.uri);
                after.labels[k] == (SymbolView {
                    name: if s.name == name && reached {
                        new_name
                    } else {
                        s.name
                    },
                    uri: s.uri,
                    range: if reached && name != new_name {
                        moved_range(
                            s.range,
                            index.labels.filter(
                                |o: SymbolView| o.uri == s.uri && o.name == name,
                            ).map_values(
                                |o: SymbolView|
                                    TextEditView { range: o.range, new_text: new_name },
                            ),
                        )
                    } else {
                        s.range
                    },
                })
            }
            &&& 0 <= k < index.references.len() ==> {
                let s = index.references[k];
                let reached = graph::connected(index.files.links, uri, s.uri);
                after.references[k] == (SymbolView {
                    name: if s.name == name && reached {
                        new_name
                    } else {
                        s.name
                    },
                    uri: s.uri,
                    range: if reached && name != new_name {
                        moved_range(
                            s.range,
                            index.references.filter(
                                |o: SymbolView| o.uri == s.uri && o.name == name,
                            ).map_values(
                                |o: SymbolView|
                                    TextEditView { range: o.range, new_text: new_name },
                            ),
                        )
                    } else {
                        s.range
                    },
                })
            }
        }),
{
    if 0 <= k < index.labels.len() {
        lemma_table_renamed(index.labels, index.files, uri, name, new_name, k);
    }
    if 0 <= k < index.references.len() {
        lemma_table_renamed(index.references, index.files, uri, name, new_name, k);
    }
}

/// A table names anew just the symbols that have the name in the given file,
/// and moves the symbols of that file by what these take up more. All others
/// stay as they are. The same name changes nothing.
pub proof fn lemma_all_renamed(
    symbols: Seq<SymbolView>,
    uri: Seq<char>,
    before: Seq<char>,
    after: Seq<char>,
    k: int,
)
    requires
        0 <= k < symbols.len(),
    ensures
        all_renamed(symbols, uri, before, after).len() == symbols.len(),
        all_renamed(symbols, uri, before, after)[k] == if symbols[k].uri != uri || before == after {
            symbols[k]
        } else {
            SymbolView {
                name: if symbols[k].name == before {
                    after
                } else {
                    symbols[k].name
                },
                uri,
                range: moved_range(
                    symbols[k].range,
                    symbols.filter(
                        |s: SymbolView| s.uri == uri && s.name == before,
                    ).map_values(|s: SymbolView| TextEditView { range: s.range, new_text: after }),
                ),
            }
        },
{
}

/// The edits to a file put the new name at each of the given places in it, in
/// their order. A file without a place gets none.
pub proof fn lemma_edits_in_order(
    all: Seq<LocationView>,
    new_name: Seq<char>,
    file: Seq<char>,
)
    ensures
        ({
            let inside = all.filter(|p: LocationView| p.uri == file);
            let changes = edits_of(all, new_name);
            &&& changes.contains_key(file) <==> inside.len() > 0
            &&& changes.contains_key(file) ==> changes[file] == inside.map_values(
                |p: LocationView| TextEditView { range: p.range, new_text: new_name },
            )
        }),
{
    let inside = |p: LocationView| p.uri == file;
    if has_place_in(all, file) {
        let k = choose|k: int| 0 <= k < all.len() && (#[trigger] all[k]).uri == file;
        all.lemma_filter_contains(inside, k);
        assert(edits_of(all, new_name)[file] =~= all.filter(inside).map_values(
            |p: LocationView| TextEditView { range: p.range, new_text: new_name },
        ));
    } else {
        all.lemma_all_neg_filter_empty(inside);
    }
}

/// One edit moves what stands at or behind its end on its line by the bytes
/// that the new text has more than the replaced one, and nothing else.
pub proof fn lemma_moved_by_one(position: Position, edit: TextEditView)
    requires
        encode_utf8(edit.new_text).len() <= u32::MAX,
    ensures
        ({
            let line = position.line;
            let range = edit.range;
            let to = position.character + encode_utf8(edit.new_text).len() + range.start.character
                - range.end.character;
            let after = moved(position, seq![edit]);
            &&& after.line == line
            &&& if range.start.line == line && range.end.line == line && range.end.character
                <= position.character {
                0 <= to <= u32::MAX ==> after.character == to
            } else {
                after == position
            }
        }),
{
    let edits = seq![edit];
    lemma_text_width(edit.new_text);
    assert(edits.drop_last() =~= Seq::empty());
    assert(column_shift(position, edits.drop_last()) == 0);
    assert(edits.last() == edit);
}

/// Edits together move a position by as many columns as they do one by one,
/// as far as a column can go, and leave it on its line.
pub proof fn lemma_moved_by_all(
    position: Position,
    first: Seq<TextEditView>,
    second: Seq<TextEditView>,
)
    ensures
        ({
            let to = position.character + column_shift(position, first) + column_shift(
                position,
                second,
            );
            let after = moved(position, first + second);
            &&& after.line == position.line
            &&& 0 <= to <= u32::MAX ==> after.character == to
            &&& to < 0 ==> after.character == 0
            &&& to > u32::MAX ==> after.character == u32::MAX
        }),
        column_shift(position, Seq::empty()) == 0,
        moved(position, Seq::empty()) == position,
{
    lemma_shift_add(position, first, second);
}

/// A range is moved by moving both its ends.
pub proof fn lemma_moved_range(range: Range, edits: Seq<TextEditView>)
    ensures
        moved_range(range, edits).start == moved(range.start, edits),
        moved_range(range, edits).end == moved(range.end, edits),
{
}

/// Only a file that was read has a text.
pub proof fn lemma_content(text: String)
    ensures
        FileContent::Text(text).deep_view() == Some(text@),
        FileContent::NoPath.deep_view() is None,
        FileContent::Unreadable.deep_view() is None,
{
}

/// The files that are to be read next are those that were given, in order.
pub proof fn lemma_followed(files: Vec<String>, unresolved: Unresolved)
    ensures
        followed(Ok(files)) is Ok,
        followed(Ok(files))->Ok_0.len() == files.len(),
        forall|k: int|
            0 <= k < files.len() ==> #[trigger] followed(Ok(files))->Ok_0[k] == files[k]@,
        followed(Err(unresolved)) == Err::<Seq<Seq<char>>, Seq<char>>(unresolved.path@),
{
}

/// Changes made to the texts change each text by its own edits, and nothing
/// else of the index.
pub proof fn lemma_changed(
    index: Index,
    changes: Map<Seq<char>, Seq<TextEditView>>,
    file: Seq<char>,
)
    ensures
        ({
            let after = index.changed(changes);
            &&& after.files.texts.dom() == index.files.texts.dom()
            &&& index.files.texts.contains_key(file) ==> after.files.texts[file]
                == if changes.contains_key(file) {
                edited(index.files.texts[file], changes[file])
            } else {
                index.files.texts[file]
            }
            &&& after.files.links == index.files.links
            &&& after.files.include_root == index.files.include_root
            &&& after.labels == index.labels
            &&& after.references == index.references
            &&& after.defines == index.defines
        }),
{
    assert(index.changed(changes).files.texts.dom() =~= index.files.texts.dom());
}

/// The last pending file that is indexed is followed next. Those behind it are
/// passed over, and those in front of it stay pending.
pub proof fn lemma_followed_next(opening: OpeningView, index: Index, k: int)
    requires
        0 <= k < opening.pending.len(),
        !(kind_of(opening.pending[k]) is Other),
        forall|j: int|
            k < j < opening.pending.len() ==> kind_of(#[trigger] opening.pending[j]) is Other,
    ensures
        opening.action(index) == ActionView::Follow(opening.pending[k]),
        opening.rest(index).pending == opening.pending.take(k),
        opening.rest(index).uri == opening.uri,
        opening.rest(index).lists == opening.lists,
        opening.rest(index).neighbours == opening.neighbours,
{
    lemma_indexed_last(opening.pending, k);
    assert(opening.pending.take(k + 1).drop_last() =~= opening.pending.take(k));
}

proof fn lemma_indexed_last(pending: Seq<Seq<char>>, k: int)
    requires
        -1 <= k < pending.len(),
        k >= 0 ==> !(kind_of(pending[k]) is Other),
        forall|j: int| k < j < pending.len() ==> kind_of(#[trigger] pending[j]) is Other,
    ensures
        indexed_last(pending) == pending.take(k + 1),
    decreases pending.len(),
{
    if k == pending.len() - 1 {
        assert(pending.take(k + 1) =~= pending);
    } else {
        let rest = pending.drop_last();
        assert(kind_of(pending[pending.len() - 1]) is Other);
        assert forall|j: int| k < j < rest.len() implies kind_of(#[trigger] rest[j]) is Other by {
            assert(rest[j] == pending[j]);
        }
        lemma_indexed_last(rest, k);
        assert(rest.take(k + 1) =~= pending.take(k + 1));
    }
}

/// Once no pending file is indexed, the directory of the opened file is listed
/// if it is to be, and only once.
pub proof fn lemma_listed_next(opening: OpeningView, index: Index)
    requires
        forall|j: int|
            0 <= j < opening.pending.len() ==> kind_of(#[trigger] opening.pending[j]) is Other,
        opening.lists,
    ensures
        opening.action(index) == match url::joined_url(opening.uri, "."@) {
            Some(directory) => ActionView::List(directory),
            None => ActionView::NoDirectory,
        },
        opening.rest(index).pending.len() == 0,
        opening.rest(index).uri == opening.uri,
        !opening.rest(index).lists,
        opening.rest(index).neighbours == opening.neighbours,
{
    lemma_indexed_last(opening.pending, -1);
}

/// Then the first of its files that is indexed and not known is visited. Those
/// in front of it are passed over, and those behind it stay.
pub proof fn lemma_visited_next(opening: OpeningView, index: Index, k: int)
    requires
        forall|j: int|
            0 <= j < opening.pending.len() ==> kind_of(#[trigger] opening.pending[j]) is Other,
        !opening.lists,
        0 <= k < opening.neighbours.len(),
        !(kind_of(opening.neighbours[k]) is Other),
        !index.files.texts.contains_key(opening.neighbours[k]),
        forall|j: int|
            0 <= j < k ==> kind_of(#[trigger] opening.neighbours[j]) is Other
                || index.files.texts.contains_key(opening.neighbours[j]),
    ensures
        opening.action(index) == ActionView::Visit(opening.neighbours[k]),
        opening.rest(index).neighbours == opening.neighbours.skip(k + 1),
        opening.rest(index).pending.len() == 0,
        opening.rest(index).uri == opening.uri,
        !opening.rest(index).lists,
{
    lemma_indexed_last(opening.pending, -1);
    lemma_unknown_first(opening.neighbours, index, k);
    assert(opening.neighbours.skip(k).drop_first() =~= opening.neighbours.skip(k + 1));
}

proof fn lemma_unknown_first(neighbours: Seq<Seq<char>>, index: Index, k: int)
    requires
        0 <= k <= neighbours.len(),
        k < neighbours.len() ==> !(kind_of(neighbours[k]) is Other)
            && !index.files.texts.contains_key(neighbours[k]),
        forall|j: int|
            0 <= j < k ==> kind_of(#[trigger] neighbours[j]) is Other
                || index.files.texts.contains_key(neighbours[j]),
    ensures
        unknown_first(neighbours, index) == neighbours.skip(k),
    decreases neighbours.len(),
{
    if k == 0 {
        assert(neighbours.skip(0) =~= neighbours);
    } else {
        let rest = neighbours.drop_first();
        assert(kind_of(neighbours[0]) is Other || index.files.texts.contains_key(neighbours[0]));
        assert forall|j: int| 0 <= j < k - 1 implies kind_of(#[trigger] rest[j]) is Other
            || index.files.texts.contains_key(rest[j]) by {
            assert(rest[j] == neighbours[j + 1]);
        }
        assert(k < neighbours.len() ==> rest[k - 1] == neighbours[k]);
        lemma_unknown_first(rest, index, k - 1);
        assert(rest.skip(k - 1) =~= neighbours.skip(k));
    }
}

/// Where there is none of these, nothing is left to be done.
pub proof fn lemma_done(opening: OpeningView, index: Index)
    requires
        forall|j: int|
            0 <= j < opening.pending.len() ==> kind_of(#[trigger] opening.pending[j]) is Other,
        !opening.lists,
        forall|j: int|
            0 <= j < opening.neighbours.len() ==> kind_of(#[trigger] opening.neighbours[j]) is Other
                || index.files.texts.contains_key(opening.neighbours[j]),
    ensures
        opening.action(index) is Done,
{
    lemma_indexed_last(opening.pending, -1);
    lemma_unknown_first(opening.neighbours, index, opening.neighbours.len() as int);
}

/// A definition is asked of the node at the position in the text of the file.
/// A file without a text has none.
pub proof fn lemma_definition_at(index: Index, uri: Seq<char>, position: Position)
    ensures
        !index.files.texts.contains_key(uri) ==> index.definition_at(uri, position) is None,
        index.files.texts.contains_key(uri) && encode_utf8(index.files.texts[uri]).len()
            <= 0xffff_fffe ==> index.definition_at(uri, position) == index.definition(
            uri,
            node_at_point(index.files.texts[uri], position.line, position.character),
        ),
{
    lemma_node_at(index, uri, position);
}

/// References are asked of the node at the position in the text of the file. A
/// file without a text has none.
pub proof fn lemma_references_at(index: Index, uri: Seq<char>, position: Position)
    ensures
        !index.files.texts.contains_key(uri) ==> index.references_at(uri, position) is None,
        index.files.texts.contains_key(uri) && encode_utf8(index.files.texts[uri]).len()
            <= 0xffff_fffe ==> index.references_at(uri, position) == index.references_to(
            uri,
            node_at_point(index.files.texts[uri], position.line, position.character),
        ),
{
    lemma_node_at(index, uri, position);
}

/// Whether a name can be changed, the edits that this takes and what becomes
/// of the index are decided alike: in a file without a text nothing is done;
/// where the node at the position has the name of a label or a reference, its
/// range is answered, and its name is changed; anywhere else the request is
/// refused, and nothing changes.
pub proof fn lemma_rename_at(
    index: Index,
    uri: Seq<char>,
    position: Position,
    new_name: Seq<char>,
)
    ensures
        ({
            let node = index.node_at(uri, position);
            let prepared = index.range_to_change(uri, position);
            let changes = index.changes_at(uri, position, new_name);
            let after = index.renamed_at(uri, position, new_name);
            if !index.files.texts.contains_key(uri) {
                &&& prepared == Ok::<Option<Range>, RequestError>(None)
                &&& changes matches Ok(None)
                &&& after == index
            } else if index.name_to_change(uri, node) is None {
                &&& prepared == Err::<Option<Range>, RequestError>(RequestError::InvalidParams)
                &&& changes matches Err(RequestError::InvalidParams)
                &&& after == index
            } else {
                &&& node is Some
                &&& prepared matches Ok(Some(range))
                &&& range.start.line == node->0.range.0 as u32
                &&& range.start.character == node->0.range.1 as u32
                &&& range.end.line == node->0.range.2 as u32
                &&& range.end.character == node->0.range.3 as u32
                &&& changes matches Ok(Some(edits))
                &&& edits == edits_of(index.name_places(uri, node->0.text), new_name)
                &&& after == index.renamed(uri, node->0.text, new_name)
            }
        }),
{
}

/// The places of a name are those of its labels, then those of its references.
pub proof fn lemma_name_places(index: Index, uri: Seq<char>, name: Seq<char>)
    ensures
        index.name_places(uri, name) == index.labels.filter(
            |s: SymbolView| s.name == name && graph::connected(index.files.links, uri, s.uri),
        ).map_values(|s: SymbolView| LocationView { uri: s.uri, range: s.range })
            + index.references.filter(
            |s: SymbolView| s.name == name && graph::connected(index.files.links, uri, s.uri),
        ).map_values(|s: SymbolView| LocationView { uri: s.uri, range: s.range }),
{
    lemma_places(index.labels, index.files, uri, name);
    lemma_places(index.references, index.files, uri, name);
}

/// Once a file was opened, the files that are read after it are pending, the
/// last of them first, and its directory is to be listed if that is wished.
pub proof fn lemma_opening(
    index: Index,
    uri: Seq<char>,
    content: Option<Seq<char>>,
    lists: bool,
)
    ensures
        match (index.after(uri, content), index.opening(uri, content, lists)) {
            (Ok(files), Ok(opening)) => {
                &&& opening.uri == uri
                &&& opening.pending == files
                &&& opening.lists == lists
                &&& opening.neighbours.len() == 0
            },
            (Err(a), Err(b)) => a == b,
            _ => false,
        },
{
}

/// What a followed file names is pending behind all else.
pub proof fn lemma_followed_by(
    index: Index,
    opening: OpeningView,
    uri: Seq<char>,
    content: Option<Seq<char>>,
)
    ensures
        ({
            let after = index.followed_by(opening, uri, content);
            &&& after.uri == opening.uri
            &&& after.lists == opening.lists
            &&& after.neighbours == opening.neighbours
            &&& opening.pending.is_prefix_of(after.pending)
            &&& match index.after(uri, content) {
                Ok(files) => {
                    &&& after.pending.len() == opening.pending.len() + files.len()
                    &&& after.pending.skip(opening.pending.len() as int) == files
                },
                Err(_) => after.pending == opening.pending,
            }
        }),
{
    let after = index.followed_by(opening, uri, content);
    if let Ok(files) = index.after(uri, content) {
        assert(after.pending.skip(opening.pending.len() as int) =~= files);
    }
}

/// The directory of bindings is the value of `bindings_includes` in the first
/// settings, and the current directory where there is none.
pub proof fn lemma_bindings_path(all: Vec<Vec<(String, String)>>, k: int)
    requires
        all.len() > 0,
        forall|j: int|
            k < j < all[0].len() ==> (#[trigger] all[0]@[j]).0@ != "bindings_includes"@,
        k == -1 || 0 <= k < all[0].len() && all[0]@[k].0@ == "bindings_includes"@,
    ensures
        bindings_path(SettingsReply::Settings(all)) == if k == -1 {
            "."@
        } else {
            all[0]@[k].1@
        },
        bindings_path(SettingsReply::NoClient) == "."@,
        bindings_path(SettingsReply::Failed) == "."@,
{
    let entries = all[0].deep_view();
    assert forall|j: int| k < j < entries.len() implies (#[trigger] entries[j]).0
        != "bindings_includes"@ by {
        assert(entries[j].0 == all[0]@[j].0@);
    }
    if k >= 0 {
        assert(entries[k].0 == all[0]@[k].0@);
        assoc::lemma_found(entries, "bindings_includes"@, k);
    } else {
        assoc::lemma_absent(entries, "bindings_includes"@);
    }
}

/// What edits make of a text: for each place of it, what the edits that start
/// there put in front of it, in their order, and then the character there,
/// unless the range of one of the edits holds it.
pub proof fn lemma_edited(text: Seq<char>, edits: Seq<TextEditView>)
    ensures
        edited(text, edits) == Seq::new(
            text.len() + 1,
            |at: int|
                edits.filter(
                    |e: TextEditView| offset_of(text, e.range.start) == at,
                ).map_values(|e: TextEditView| e.new_text).flatten() + (if at < text.len()
                    && !exists|k: int|
                    {
                        &&& 0 <= k < edits.len()
                        &&& offset_of(text, (#[trigger] edits[k]).range.start) <= at
                        &&& at < offset_of(text, edits[k].range.end)
                    } {
                    seq![text[at]]
                } else {
                    Seq::empty()
                }),
        ).flatten(),
{
    let f = |at: int| edited_at(text, edits, at);
    let g = |at: int|
        edits.filter(
            |e: TextEditView| offset_of(text, e.range.start) == at,
        ).map_values(|e: TextEditView| e.new_text).flatten() + (if at < text.len()
            && !exists|k: int|
            {
                &&& 0 <= k < edits.len()
                &&& offset_of(text, (#[trigger] edits[k]).range.start) <= at
                &&& at < offset_of(text, edits[k].range.end)
            } {
            seq![text[at]]
        } else {
            Seq::empty()
        });
    lemma_prefix_flat(text, edits, text.len() + 1);
    assert(Seq::new(text.len() + 1, f) =~= Seq::new(text.len() + 1, g)) by {
        assert forall|at: int| 0 <= at < text.len() + 1 implies #[trigger] f(at) == g(at) by {
            lemma_inserted_flat(text, edits, at);
            assert(removed_at(text, edits, at) == exists|k: int|
                {
                    &&& 0 <= k < edits.len()
                    &&& offset_of(text, (#[trigger] edits[k]).range.start) <= at
                    &&& at < offset_of(text, edits[k].range.end)
                });
        }
    }
}

proof fn lemma_prefix_flat(text: Seq<char>, edits: Seq<TextEditView>, n: nat)
    ensures
        edited_prefix(text, edits, n) == Seq::new(
            n,
            |at: int| edited_at(text, edits, at),
        ).flatten(),
    decreases n,
{
    let f = |at: int| edited_at(text, edits, at);
    let parts = Seq::new(n, f);
    parts.lemma_flatten_and_flatten_alt_are_equivalent();
    if n > 0 {
        let less = (n - 1) as nat;
        lemma_prefix_flat(text, edits, less);
        Seq::new(less, f).lemma_flatten_and_flatten_alt_are_equivalent();
        assert(parts.drop_last() =~= Seq::new(less, f));
        assert(parts.last() == edited_at(text, edits, n - 1));
    }
}

proof fn lemma_inserted_flat(text: Seq<char>, edits: Seq<TextEditView>, at: int)
    ensures
        inserted_at(text, edits, at) == edits.filter(
            |e: TextEditView| offset_of(text, e.range.start) == at,
        ).map_values(|e: TextEditView| e.new_text).flatten(),
    decreases edits.len(),
{
    let here = |e: TextEditView| offset_of(text, e.range.start) == at;
    let put = |e: TextEditView| e.new_text;
    let parts = edits.filter(here).map_values(put);
    parts.lemma_flatten_and_flatten_alt_are_equivalent();
    if edits.len() == 0 {
        reveal(Seq::filter);
        assert(parts =~= Seq::empty());
    } else {
        let rest = edits.drop_last();
        let before = rest.filter(here).map_values(put);
        lemma_inserted_flat(text, rest, at);
        before.lemma_flatten_and_flatten_alt_are_equivalent();
        assert(edits =~= rest.push(edits.last()));
        rest.lemma_filter_push(edits.last(), here);
        if here(edits.last()) {
            assert(parts =~= before.push(edits.last().new_text));
            assert(parts.drop_last() =~= before);
        } else {
            assert(parts =~= before);
        }
    }
}

} // verus!
