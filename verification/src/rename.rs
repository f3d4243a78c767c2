//! What a new name changes: the edits that it takes, and the index after it.

use crate::assoc;
use crate::data::{Data, Index};
use crate::edit;
use crate::file_depot::Files;
use crate::symbols::{
    all_renamed, lemma_filter_after_map, own_edits, places, SymbolView,
};
use crate::types::{Location, LocationView, TextEdit, TextEditView};
use vstd::prelude::*;
use vstd::string::*;

verus! {

/// The edit that puts `new_name` at `place`.
pub open spec fn edit_at(place: LocationView, new_name: Seq<char>) -> TextEditView {
    TextEditView { range: place.range, new_text: new_name }
}

/// The edits to `uri` that put `new_name` at those of `all` that lie in it.
pub open spec fn edits_in(all: Seq<LocationView>, uri: Seq<char>, new_name: Seq<char>) -> Seq<
    TextEditView,
> {
    all.filter(|p: LocationView| p.uri == uri).map_values(|p: LocationView| edit_at(p, new_name))
}

/// Whether one of `all` lies in `uri`.
pub open spec fn has_place_in(all: Seq<LocationView>, uri: Seq<char>) -> bool {
    exists|k: int| 0 <= k < all.len() && (#[trigger] all[k]).uri == uri
}

/// The edits that put `new_name` at each of `all`, by file.
pub open spec fn edits_of(all: Seq<LocationView>, new_name: Seq<char>) -> Map<
    Seq<char>,
    Seq<TextEditView>,
> {
    Map::new(
        |uri: Seq<char>| has_place_in(all, uri),
        |uri: Seq<char>| edits_in(all, uri, new_name),
    )
}

/// Whether no file occurs twice in `changes`.
pub open spec fn distinct_files(changes: Seq<(Seq<char>, Seq<TextEditView>)>) -> bool {
    forall|i: int, j: int|
        0 <= i < j < changes.len() ==> (#[trigger] changes[i]).0 != (#[trigger] changes[j]).0
}

/// What `changes` make of `text`, the text of `uri`.
pub open spec fn changed_text(
    changes: Map<Seq<char>, Seq<TextEditView>>,
    uri: Seq<char>,
    text: Seq<char>,
) -> Seq<char> {
    if changes.contains_key(uri) {
        edit::edited(text, changes[uri])
    } else {
        text
    }
}

/// `symbols` once those that are `name` in files connected with `uri` are
/// named `new_name`, and what follows them on their lines is moved.
pub open spec fn visible_renamed(
    symbols: Seq<SymbolView>,
    files: Files,
    uri: Seq<char>,
    name: Seq<char>,
    new_name: Seq<char>,
) -> Seq<SymbolView> {
    if name == new_name {
        symbols
    } else {
        symbols.map_values(
            |s: SymbolView|
                if files.connects(uri, s.uri) {
                    renamed_at_home(symbols, name, new_name, s)
                } else {
                    s
                },
        )
    }
}

/// `symbol` once those of `symbols` that are `name` in its file are named
/// `new_name`.
pub open spec fn renamed_at_home(
    symbols: Seq<SymbolView>,
    name: Seq<char>,
    new_name: Seq<char>,
    symbol: SymbolView,
) -> SymbolView {
    symbol.renamed(symbol.uri, name, new_name).edited(
        symbol.uri,
        own_edits(symbols, symbol.uri, name, new_name),
    )
}

impl Index {
    /// The places of `name` as seen from `uri`: those of the labels, then
    /// those of the references.
    pub open spec fn name_places(self, uri: Seq<char>, name: Seq<char>) -> Seq<LocationView> {
        places(self.labels, self.files, uri, name) + places(self.references, self.files, uri, name)
    }

    /// The index once `changes` were made to the texts.
    pub open spec fn changed(self, changes: Map<Seq<char>, Seq<TextEditView>>) -> Index {
        Index {
            files: Files {
                texts: self.files.texts.map_entries(
                    |uri: Seq<char>, text: Seq<char>| changed_text(changes, uri, text),
                ),
                ..self.files
            },
            ..self
        }
    }

    /// The index once what is `name` as seen from `uri` is named `new_name`,
    /// but for the texts.
    pub open spec fn with_new_name(
        self,
        uri: Seq<char>,
        name: Seq<char>,
        new_name: Seq<char>,
    ) -> Index {
        Index {
            labels: visible_renamed(self.labels, self.files, uri, name, new_name),
            references: visible_renamed(self.references, self.files, uri, name, new_name),
            ..self
        }
    }

    /// The index once what is `name` as seen from `uri` is named `new_name`
    /// in the texts and in the index.
    pub open spec fn renamed(
        self,
        uri: Seq<char>,
        name: Seq<char>,
        new_name: Seq<char>,
    ) -> Index {
        self.with_new_name(uri, name, new_name).changed(
            edits_of(self.name_places(uri, name), new_name),
        )
    }
}

/// Takes an edit of `uri` to `changes`, behind the others of that file.
fn add_edit(changes: &mut Vec<(String, Vec<TextEdit>)>, uri: &String, edit: TextEdit)
    requires
        distinct_files(old(changes).deep_view()),
    ensures
        distinct_files(final(changes).deep_view()),
        assoc::to_map(final(changes).deep_view()) == {
            let before = assoc::to_map(old(changes).deep_view());
            before.insert(
                uri@,
                if before.contains_key(uri@) {
                    before[uri@].push(edit.deep_view())
                } else {
                    seq![edit.deep_view()]
                },
            )
        },
{
    let ghost all = changes.deep_view();
    let mut k: usize = 0;
    while k < changes.len()
        invariant
            *changes == *old(changes),
            all == changes.deep_view(),
            distinct_files(all),
            k <= changes.len(),
            forall|j: int| 0 <= j < k ==> (#[trigger] all[j]).0 != uri@,
        decreases changes.len() - k,
    {
        if changes[k].0 == *uri {
            let mut edits = changes[k].1.clone();
            assert(edits.deep_view() =~= all[k as int].1);
            edits.push(edit);
            assert(edits.deep_view() =~= all[k as int].1.push(edit.deep_view()));
            changes.set(k, (uri.clone(), edits));
            proof {
                assert(all[k as int].0 == uri@);
                assoc::lemma_found(all, uri@, k as int);
                assoc::lemma_update(all, k as int, edits.deep_view());
                assert(changes.deep_view() =~= all.update(
                    k as int,
                    (all[k as int].0, edits.deep_view()),
                ));
            }
            return;
        }
        assert(all[k as int].0 != uri@);
        k += 1;
    }
    let mut edits: Vec<TextEdit> = Vec::new();
    edits.push(edit);
    assert(edits.deep_view() =~= seq![edit.deep_view()]);
    changes.push((uri.clone(), edits));
    proof {
        assoc::lemma_absent(all, uri@);
        assoc::lemma_push(all, uri@, edits.deep_view());
        assert(changes.deep_view() =~= all.push((uri@, edits.deep_view())));
    }
}

/// The edits that put `new_name` at each of `all`, by file.
pub fn group_edits(all: &Vec<Location>, new_name: &str) -> (r: Vec<(String, Vec<TextEdit>)>)
    ensures
        distinct_files(r.deep_view()),
        assoc::to_map(r.deep_view()) == edits_of(all.deep_view(), new_name@),
{
    let ghost places = all.deep_view();
    let mut changes: Vec<(String, Vec<TextEdit>)> = Vec::new();
    let mut k: usize = 0;
    proof {
        assert(changes.deep_view() =~= Seq::empty());
        assert(assoc::to_map(changes.deep_view()) =~= edits_of(places.take(0), new_name@));
    }
    while k < all.len()
        invariant
            k <= all.len(),
            places == all.deep_view(),
            distinct_files(changes.deep_view()),
            assoc::to_map(changes.deep_view()) == edits_of(places.take(k as int), new_name@),
        decreases all.len() - k,
    {
        let place = &all[k];
        add_edit(
            &mut changes,
            &place.uri,
            TextEdit { range: place.range, new_text: new_name.to_owned() },
        );
        proof {
            lemma_one_more_place(places, k as int, new_name@);
        }
        k += 1;
    }
    assert(places.take(k as int) =~= places);
    changes
}

/// One more place adds its edit to those of its file.
proof fn lemma_one_more_place(all: Seq<LocationView>, k: int, new_name: Seq<char>)
    requires
        0 <= k < all.len(),
    ensures
        edits_of(all.take(k + 1), new_name) == {
            let before = edits_of(all.take(k), new_name);
            before.insert(
                all[k].uri,
                if before.contains_key(all[k].uri) {
                    before[all[k].uri].push(edit_at(all[k], new_name))
                } else {
                    seq![edit_at(all[k], new_name)]
                },
            )
        },
{
    let before = all.take(k);
    let after = all.take(k + 1);
    let place = all[k];
    assert(after =~= before.push(place));
    assert forall|uri: Seq<char>| #[trigger] has_place_in(after, uri) <==> has_place_in(before, uri)
        || uri == place.uri by {
        if has_place_in(before, uri) {
            let j = choose|j: int| 0 <= j < before.len() && (#[trigger] before[j]).uri == uri;
            assert(after[j].uri == uri);
        }
        if uri == place.uri {
            assert(after[k].uri == uri);
        }
        if has_place_in(after, uri) && uri != place.uri {
            let j = choose|j: int| 0 <= j < after.len() && (#[trigger] after[j]).uri == uri;
            assert(before[j].uri == uri);
        }
    }
    assert forall|uri: Seq<char>| #[trigger] edits_in(after, uri, new_name) == if uri == place.uri {
        edits_in(before, uri, new_name).push(edit_at(place, new_name))
    } else {
        edits_in(before, uri, new_name)
    } by {
        let inside = |p: LocationView| p.uri == uri;
        before.lemma_filter_push(place, inside);
        assert(edits_in(after, uri, new_name) =~= if uri == place.uri {
            edits_in(before, uri, new_name).push(edit_at(place, new_name))
        } else {
            edits_in(before, uri, new_name)
        });
    }
    if !has_place_in(before, place.uri) {
        lemma_no_place(before, place.uri, new_name);
    }
    assert(edits_of(after, new_name) =~= edits_of(before, new_name).insert(
        place.uri,
        if has_place_in(before, place.uri) {
            edits_in(before, place.uri, new_name).push(edit_at(place, new_name))
        } else {
            seq![edit_at(place, new_name)]
        },
    ));
}

/// A file without a place gets no edits.
pub(crate) proof fn lemma_no_place(all: Seq<LocationView>, uri: Seq<char>, new_name: Seq<char>)
    requires
        !has_place_in(all, uri),
    ensures
        edits_in(all, uri, new_name) == Seq::<TextEditView>::empty(),
{
    let inside = |p: LocationView| p.uri == uri;
    all.lemma_all_neg_filter_empty(inside);
    assert(edits_in(all, uri, new_name) =~= Seq::empty());
}

/// Whether one of the first `k` of `all` lies in `uri`.
spec fn seen(all: Seq<LocationView>, k: int, uri: Seq<char>) -> bool {
    has_place_in(all.take(k), uri)
}

/// `symbol` once those of `symbols` that are `name` in the files of the first
/// `k` of `all` are named `new_name`.
spec fn partly_renamed(
    symbols: Seq<SymbolView>,
    all: Seq<LocationView>,
    k: int,
    name: Seq<char>,
    new_name: Seq<char>,
    symbol: SymbolView,
) -> SymbolView {
    if name != new_name && seen(all, k, symbol.uri) {
        renamed_at_home(symbols, name, new_name, symbol)
    } else {
        symbol
    }
}

/// No edits move nothing.
proof fn lemma_not_moved(symbol: SymbolView, uri: Seq<char>)
    ensures
        symbol.edited(uri, Seq::empty()) == symbol,
{
}

/// Without a symbol of that name there is nothing to edit.
proof fn lemma_no_own_edits(
    symbols: Seq<SymbolView>,
    uri: Seq<char>,
    name: Seq<char>,
    new_name: Seq<char>,
)
    requires
        forall|k: int|
            0 <= k < symbols.len() ==> !((#[trigger] symbols[k]).uri == uri && symbols[k].name
                == name),
    ensures
        own_edits(symbols, uri, name, new_name) == Seq::<TextEditView>::empty(),
{
    let wanted = |s: SymbolView| s.uri == uri && s.name == name;
    symbols.lemma_all_neg_filter_empty(wanted);
    assert(own_edits(symbols, uri, name, new_name) =~= Seq::empty());
}

proof fn lemma_seen_next(all: Seq<LocationView>, k: int, uri: Seq<char>)
    requires
        0 <= k < all.len(),
    ensures
        seen(all, k + 1, uri) <==> seen(all, k, uri) || uri == all[k].uri,
{
    let before = all.take(k);
    let after = all.take(k + 1);
    if seen(all, k, uri) {
        let j = choose|j: int| 0 <= j < before.len() && (#[trigger] before[j]).uri == uri;
        assert(after[j].uri == uri);
    }
    if uri == all[k].uri {
        assert(after[k].uri == uri);
    }
    if seen(all, k + 1, uri) && uri != all[k].uri {
        let j = choose|j: int| 0 <= j < after.len() && (#[trigger] after[j]).uri == uri;
        assert(before[j].uri == uri);
    }
}

/// Going on to the next place renames what is in its file.
proof fn lemma_rename_step(
    all: Seq<LocationView>,
    k: int,
    name: Seq<char>,
    new_name: Seq<char>,
    symbols: Seq<SymbolView>,
)
    requires
        0 <= k < all.len(),
    ensures
        all_renamed(
            symbols.map_values(|s: SymbolView| partly_renamed(symbols, all, k, name, new_name, s)),
            all[k].uri,
            name,
            new_name,
        ) == symbols.map_values(
            |s: SymbolView| partly_renamed(symbols, all, k + 1, name, new_name, s),
        ),
{
    let uri = all[k].uri;
    let f = |s: SymbolView| partly_renamed(symbols, all, k, name, new_name, s);
    let g = |s: SymbolView| partly_renamed(symbols, all, k + 1, name, new_name, s);
    let now = symbols.map_values(f);
    if name == new_name {
        assert(now =~= symbols);
        assert(symbols.map_values(g) =~= symbols);
    } else {
        let wanted = |s: SymbolView| s.uri == uri && s.name == name;
        let edits = own_edits(now, uri, name, new_name);
        if seen(all, k, uri) {
            assert forall|j: int| 0 <= j < now.len() implies !((#[trigger] now[j]).uri == uri
                && now[j].name == name) by {
                assert(now[j] == f(symbols[j]));
            }
            lemma_no_own_edits(now, uri, name, new_name);
        } else {
            lemma_filter_after_map(symbols, f, wanted);
            assert(edits == own_edits(symbols, uri, name, new_name));
        }
        assert forall|j: int| 0 <= j < symbols.len() implies #[trigger] now[j].renamed(
            uri,
            name,
            new_name,
        ).edited(uri, edits) == g(symbols[j]) by {
            lemma_seen_next(all, k, symbols[j].uri);
            assert(now[j] == f(symbols[j]));
            if seen(all, k, uri) {
                lemma_not_moved(now[j], uri);
            }
        }
        assert(all_renamed(now, uri, name, new_name) =~= symbols.map_values(g));
    }
}

/// Once every place was gone to, what is visible is renamed.
proof fn lemma_rename_done(
    symbols: Seq<SymbolView>,
    files: Files,
    uri: Seq<char>,
    name: Seq<char>,
    new_name: Seq<char>,
)
    ensures
        ({
            let all = places(symbols, files, uri, name);
            symbols.map_values(
                |s: SymbolView|
                    partly_renamed(symbols, all, all.len() as int, name, new_name, s),
            ) == visible_renamed(symbols, files, uri, name, new_name)
        }),
{
    let all = places(symbols, files, uri, name);
    let wanted = |s: SymbolView| s.is_visible(files, uri, name);
    let visible = symbols.filter(wanted);
    assert(all.take(all.len() as int) =~= all);
    assert forall|i: int| 0 <= i < symbols.len() && name != new_name implies #[trigger]
    partly_renamed(symbols, all, all.len() as int, name, new_name, symbols[i]) == (
    if files.connects(uri, symbols[i].uri) {
        renamed_at_home(symbols, name, new_name, symbols[i])
    } else {
        symbols[i]
    }) by {
        let symbol = symbols[i];
        if has_place_in(all, symbol.uri) {
            let j = choose|j: int| 0 <= j < all.len() && (#[trigger] all[j]).uri == symbol.uri;
            symbols.lemma_filter_pred(wanted, j);
            assert(visible[j].is_visible(files, uri, name));
        } else if files.connects(uri, symbol.uri) {
            assert forall|j: int| 0 <= j < symbols.len() implies !((#[trigger] symbols[j]).uri
                == symbol.uri && symbols[j].name == name) by {
                if symbols[j].uri == symbol.uri && symbols[j].name == name {
                    symbols.lemma_filter_contains(wanted, j);
                    let n = choose|n: int| 0 <= n < visible.len() && visible[n] == symbols[j];
                    assert(all[n].uri == symbol.uri);
                }
            }
            lemma_no_own_edits(symbols, symbol.uri, name, new_name);
            lemma_not_moved(symbol, symbol.uri);
        }
    }
    assert(symbols.map_values(
        |s: SymbolView| partly_renamed(symbols, all, all.len() as int, name, new_name, s),
    ) =~= visible_renamed(symbols, files, uri, name, new_name));
}

/// No change at all leaves the index as it is.
proof fn lemma_unchanged(index: Index)
    ensures
        index.changed(Map::empty()) == index,
{
    let none = Map::<Seq<char>, Seq<TextEditView>>::empty();
    assert(index.changed(none).files.texts =~= index.files.texts);
}

/// The edits of one more file change its text.
proof fn lemma_one_more_file(
    index: Index,
    changes: Map<Seq<char>, Seq<TextEditView>>,
    uri: Seq<char>,
    edits: Seq<TextEditView>,
)
    requires
        !changes.contains_key(uri),
    ensures
        ({
            let before = index.changed(changes);
            let after = index.changed(changes.insert(uri, edits));
            after.files == match before.files.text(uri) {
                Some(text) => before.files.inserted(uri, edit::edited(text, edits)),
                None => before.files,
            }
        }),
{
    let before = index.changed(changes);
    let after = index.changed(changes.insert(uri, edits));
    assert(after.files.texts =~= match before.files.text(uri) {
        Some(text) => before.files.texts.insert(uri, edit::edited(text, edits)),
        None => before.files.texts,
    });
}

/// A name without a place is not renamed anywhere.
proof fn lemma_not_visible(
    symbols: Seq<SymbolView>,
    files: Files,
    uri: Seq<char>,
    name: Seq<char>,
    new_name: Seq<char>,
)
    requires
        places(symbols, files, uri, name).len() == 0,
    ensures
        visible_renamed(symbols, files, uri, name, new_name) == symbols,
{
    let all = places(symbols, files, uri, name);
    lemma_rename_done(symbols, files, uri, name, new_name);
    assert(symbols.map_values(
        |s: SymbolView| partly_renamed(symbols, all, all.len() as int, name, new_name, s),
    ) =~= symbols);
}

/// Renaming what stands nowhere changes nothing and takes no edit.
pub proof fn lemma_nothing_to_rename(
    index: Index,
    uri: Seq<char>,
    name: Seq<char>,
    new_name: Seq<char>,
)
    requires
        index.name_places(uri, name).len() == 0,
    ensures
        index.renamed(uri, name, new_name) == index,
        edits_of(index.name_places(uri, name), new_name) == Map::<
            Seq<char>,
            Seq<TextEditView>,
        >::empty(),
{
    let all = index.name_places(uri, name);
    assert(edits_of(all, new_name) =~= Map::empty());
    lemma_not_visible(index.labels, index.files, uri, name, new_name);
    lemma_not_visible(index.references, index.files, uri, name, new_name);
    assert(index.with_new_name(uri, name, new_name) == index);
    lemma_unchanged(index);
}

impl Data {
    /// Names `new_name` the labels that are `name` at `found`, their places
    /// as seen from `uri`.
    fn rename_labels(&mut self, uri: &str, found: &Vec<Location>, name: &str, new_name: &str)
        requires
            found.deep_view() == places(old(self)@.labels, old(self)@.files, uri@, name@),
        ensures
            final(self)@ == (Index {
                labels: visible_renamed(
                    old(self)@.labels,
                    old(self)@.files,
                    uri@,
                    name@,
                    new_name@,
                ),
                ..old(self)@
            }),
    {
        let ghost symbols = self@.labels;
        let ghost all = found.deep_view();
        let mut k: usize = 0;
        assert(symbols.map_values(|s: SymbolView| partly_renamed(symbols, all, 0, name@, new_name@, s))
            =~= symbols);
        while k < found.len()
            invariant
                k <= found.len(),
                all == found.deep_view(),
                self@ == (Index {
                    labels: symbols.map_values(
                        |s: SymbolView|
                            partly_renamed(symbols, all, k as int, name@, new_name@, s),
                    ),
                    ..old(self)@
                }),
            decreases found.len() - k,
        {
            self.ld.rename(found[k].uri.as_str(), name, new_name);
            proof {
                assert(all[k as int].uri == found[k as int].uri@);
                lemma_rename_step(all, k as int, name@, new_name@, symbols);
            }
            k += 1;
        }
        proof {
            lemma_rename_done(symbols, old(self)@.files, uri@, name@, new_name@);
        }
    }

    /// Names `new_name` the references that are `name` at `found`, their
    /// places as seen from `uri`.
    fn rename_references(&mut self, uri: &str, found: &Vec<Location>, name: &str, new_name: &str)
        requires
            found.deep_view() == places(old(self)@.references, old(self)@.files, uri@, name@),
        ensures
            final(self)@ == (Index {
                references: visible_renamed(
                    old(self)@.references,
                    old(self)@.files,
                    uri@,
                    name@,
                    new_name@,
                ),
                ..old(self)@
            }),
    {
        let ghost symbols = self@.references;
        let ghost all = found.deep_view();
        let mut k: usize = 0;
        assert(symbols.map_values(|s: SymbolView| partly_renamed(symbols, all, 0, name@, new_name@, s))
            =~= symbols);
        while k < found.len()
            invariant
                k <= found.len(),
                all == found.deep_view(),
                self@ == (Index {
                    references: symbols.map_values(
                        |s: SymbolView|
                            partly_renamed(symbols, all, k as int, name@, new_name@, s),
                    ),
                    ..old(self)@
                }),
            decreases found.len() - k,
        {
            self.rd.rename(found[k].uri.as_str(), name, new_name);
            proof {
                assert(all[k as int].uri == found[k as int].uri@);
                lemma_rename_step(all, k as int, name@, new_name@, symbols);
            }
            k += 1;
        }
        proof {
            lemma_rename_done(symbols, old(self)@.files, uri@, name@, new_name@);
        }
    }

    /// Makes `changes` to the texts.
    pub fn apply_changes(&mut self, changes: &Vec<(String, Vec<TextEdit>)>)
        requires
            distinct_files(changes.deep_view()),
        ensures
            final(self)@ == old(self)@.changed(assoc::to_map(changes.deep_view())),
    {
        let ghost all = changes.deep_view();
        let mut k: usize = 0;
        proof {
            assert(assoc::to_map(all.take(0)) =~= Map::empty());
            lemma_unchanged(old(self)@);
        }
        while k < changes.len()
            invariant
                k <= changes.len(),
                all == changes.deep_view(),
                distinct_files(all),
                self@ == old(self)@.changed(assoc::to_map(all.take(k as int))),
            decreases changes.len() - k,
        {
            let uri = changes[k].0.as_str();
            let edits = &changes[k].1;
            proof {
                assert(all[k as int] == (uri@, edits.deep_view()));
                assert(all.take(k + 1) =~= all.take(k as int).push((uri@, edits.deep_view())));
                assoc::lemma_push(all.take(k as int), uri@, edits.deep_view());
                assert forall|j: int| 0 <= j < all.take(k as int).len() implies (#[trigger]
                all.take(k as int)[j]).0 != uri@ by {
                    assert(all[j].0 != all[k as int].0);
                }
                assoc::lemma_absent(all.take(k as int), uri@);
                lemma_one_more_file(
                    old(self)@,
                    assoc::to_map(all.take(k as int)),
                    uri@,
                    edits.deep_view(),
                );
            }
            self.fd.apply_edits(uri, edits);
            k += 1;
        }
        assert(all.take(k as int) =~= all);
    }

    /// Names `new_name` what is `name` as seen from `uri`, in the texts and
    /// in the index, and gives the edits that this took, by file.
    pub fn rename(&mut self, uri: &str, name: &str, new_name: &str) -> (r: Vec<
        (String, Vec<TextEdit>),
    >)
        ensures
            distinct_files(r.deep_view()),
            assoc::to_map(r.deep_view()) == edits_of(
                old(self)@.name_places(uri@, name@),
                new_name@,
            ),
            final(self)@ == old(self)@.renamed(uri@, name@, new_name@),
            r.len() == 0 <==> old(self)@.name_places(uri@, name@).len() == 0,
    {
        let mut labels = self.ld.find_label(&self.fd, uri, name);
        let mut references = self.rd.find_references(&self.fd, uri, name);
        self.rename_labels(uri, &labels, name, new_name);
        self.rename_references(uri, &references, name, new_name);
        let ghost first = labels.deep_view();
        let ghost second = references.deep_view();
        labels.append(&mut references);
        assert(labels.deep_view() =~= first + second);
        let changes = group_edits(&labels, new_name);
        self.apply_changes(&changes);
        proof {
            let all = old(self)@.name_places(uri@, name@);
            if all.len() == 0 && changes.len() > 0 {
                lemma_nothing_to_rename(old(self)@, uri@, name@, new_name@);
                let last = changes.deep_view().last();
                assert(assoc::to_map(changes.deep_view()).contains_key(last.0));
            }
            if all.len() > 0 {
                assert(has_place_in(all, all[0].uri));
                assert(assoc::to_map(changes.deep_view()).contains_key(all[0].uri));
            }
        }
        changes
    }
}

} // verus!
