//! The index tells what stands in the texts: that new texts and new names
//! keep it so.

use crate::captures::{all_nodes, nodes_for, symbols_of};
use crate::data::{
    empty_index, kind_of, lemma_only_links, syntax_of, FileKind, Index, SyntaxView,
};
use crate::edit::{
    as_column, column_shift, edited, edited_prefix, ends_before, moved, moved_range, offset_of,
    text_width,
};
use crate::file_depot::Files;
use crate::rename::{edit_at, edits_in, has_place_in, lemma_no_place};
use crate::symbols::{own_edits, places, without_file, SymbolView};
use crate::syntax::{all_cover, converted_range, covers, is_parsed, CaptureView, NodeRange};
use crate::tracking::{
    apart, clear, column_of, lemma_edit_reads, lemma_moved, lemma_offset, lemma_place_bound,
    lemma_prefix_of, lemma_untouched_reads, line_of, orderly, reads, stands_at, untouched, within_line,
};
use crate::types::{LocationView, Position, Range, TextEditView};
use vstd::prelude::*;

verus! {

/// Whether `a` lies within the line of an end of `b`, and in front of that
/// end.
pub open spec fn in_front(a: Range, b: Range) -> bool {
    let edit = TextEditView { range: a, new_text: Seq::empty() };
    ends_before(edit, b.start) || ends_before(edit, b.end)
}

impl Index {
    /// The labels, then the references.
    pub open spec fn symbols(self) -> Seq<SymbolView> {
        self.labels + self.references
    }

    /// Whether each label and each reference is what the text of its file
    /// reads at its place.
    pub open spec fn is_sound(self) -> bool {
        forall|k: int|
            0 <= k < self.symbols().len() ==> {
                let symbol = #[trigger] self.symbols()[k];
                &&& self.files.texts.contains_key(symbol.uri)
                &&& reads(self.files.texts[symbol.uri], symbol.range, symbol.name)
            }
    }

    /// Whether no two labels or references of a file share a character.
    pub open spec fn lies_apart(self) -> bool {
        forall|i: int, j: int|
            0 <= i < self.symbols().len() && 0 <= j < self.symbols().len() && i != j && (
            #[trigger] self.symbols()[i]).uri == (#[trigger] self.symbols()[j]).uri ==> apart(
                self.files.texts[self.symbols()[i].uri],
                self.symbols()[i].range,
                self.symbols()[j].range,
            )
    }

    /// Whether, in the files that are connected with `uri`, no label `name`
    /// stands in front of a reference on its line, and no reference `name` in
    /// front of a label.
    pub open spec fn is_unmixed(self, uri: Seq<char>, name: Seq<char>) -> bool {
        forall|i: int, j: int|
            0 <= i < self.labels.len() && 0 <= j < self.references.len() && (
            #[trigger] self.labels[i]).uri == (#[trigger] self.references[j]).uri
                && self.files.connects(uri, self.labels[i].uri) ==> {
                &&& self.labels[i].name == name ==> !in_front(
                    self.labels[i].range,
                    self.references[j].range,
                )
                &&& self.references[j].name == name ==> !in_front(
                    self.references[j].range,
                    self.labels[i].range,
                )
            }
    }

    /// Whether a change of `name` to `new_name` moves no label by the length
    /// of a reference, nor a reference by that of a label: the names are as
    /// long as each other, or labels and references are not mixed.
    pub open spec fn moves_apart(
        self,
        uri: Seq<char>,
        name: Seq<char>,
        new_name: Seq<char>,
    ) -> bool {
        text_width(name) == text_width(new_name) || self.is_unmixed(uri, name)
    }

    /// Whether the columns of all texts can be counted.
    pub open spec fn is_countable(self) -> bool {
        forall|uri: Seq<char>| #[trigger]
            self.files.texts.contains_key(uri) ==> text_width(self.files.texts[uri]) <= u32::MAX
    }
}

/// The index of no files is sound.
pub proof fn lemma_empty_is_sound()
    ensures
        empty_index().is_sound(),
        empty_index().lies_apart(),
{
}

/// What a node covers is what the text reads at its range.
pub proof fn lemma_covered_reads(text: Seq<char>, range: NodeRange, part: Seq<char>)
    requires
        is_parsed(text),
        covers(text, range, part),
    ensures
        reads(text, converted_range(range), part),
{
    let (from, to) = choose|from: int, to: int|
        {
            &&& 0 <= from <= to <= text.len()
            &&& line_of(text, from) == range.0
            &&& column_of(text, from) == range.1
            &&& line_of(text, to) == range.2
            &&& column_of(text, to) == range.3
            &&& part == #[trigger] text.subrange(from, to)
        };
    lemma_place_bound(text, from);
    lemma_place_bound(text, to);
    let converted = converted_range(range);
    lemma_offset(text, converted.start, from);
    lemma_offset(text, converted.end, to);
}

proof fn lemma_nodes_cover(text: Seq<char>, matches: Seq<Seq<CaptureView>>, index: u32, k: int)
    requires
        all_cover(text, matches),
        0 <= k < all_nodes(matches, index).len(),
    ensures
        covers(text, all_nodes(matches, index)[k].range, all_nodes(matches, index)[k].text),
    decreases matches.len(),
{
    let rest = matches.drop_last();
    let before = all_nodes(rest, index);
    assert forall|i: int, j: int| 0 <= i < rest.len() && 0 <= j < rest[i].len() implies covers(
        text,
        (#[trigger] rest[i][j]).range,
        rest[i][j].text,
    ) by {
        assert(rest[i][j] == matches[i][j]);
    }
    if k < before.len() {
        lemma_nodes_cover(text, rest, index, k);
    } else {
        let last = matches.last();
        let wanted = |c: CaptureView| c.index == index;
        let node = nodes_for(last, index)[k - before.len()];
        assert(last.filter(wanted).contains(node));
        last.lemma_filter_contains_rev(wanted, node);
        let j = choose|j: int| 0 <= j < last.len() && last[j] == node;
        assert(matches[matches.len() - 1][j] == node);
    }
}

/// The symbols that are taken from a text are what it reads at their places.
proof fn lemma_taken_reads(
    text: Seq<char>,
    matches: Seq<Seq<CaptureView>>,
    uri: Seq<char>,
    k: int,
)
    requires
        is_parsed(text) || matches.len() == 0,
        all_cover(text, matches),
        0 <= k < symbols_of(matches, uri).len(),
    ensures
        ({
            let symbol = symbols_of(matches, uri)[k];
            symbol.uri == uri && reads(text, symbol.range, symbol.name)
        }),
{
    lemma_nodes_cover(text, matches, 0, k);
    let node = all_nodes(matches, 0)[k];
    lemma_covered_reads(text, node.range, node.text);
}

/// An index that is sound stays so when a file is given a text, whether it
/// had another or none.
pub proof fn lemma_text_keeps_sound(
    index: Index,
    uri: Seq<char>,
    kind: FileKind,
    text: Seq<char>,
    syntax: SyntaxView,
)
    requires
        index.is_sound(),
        is_parsed(text) || syntax.labels.len() == 0 && syntax.references.len() == 0,
        all_cover(text, syntax.labels),
        all_cover(text, syntax.references),
    ensures
        index.with_text(uri, kind, text, syntax).is_sound(),
{
    let known = index.indexed(uri, kind, text, syntax);
    let after = index.with_text(uri, kind, text, syntax);
    match index.next_files(uri, kind, text, syntax) {
        Ok(targets) => lemma_only_links(known, uri, targets),
        Err(_) => {},
    }
    if kind is Other || index.files.insert_result(uri, text) is Exists {
        assert(after.symbols() == index.symbols());
    } else {
        let stored = index.stored(uri, text);
        lemma_kept_symbols(index, index.labels, stored.labels, uri, text, 0);
        lemma_kept_symbols(
            index,
            index.references,
            stored.references,
            uri,
            text,
            index.labels.len() as int,
        );
        assert forall|k: int| 0 <= k < after.symbols().len() implies ({
            let symbol = #[trigger] after.symbols()[k];
            &&& after.files.texts.contains_key(symbol.uri)
            &&& reads(after.files.texts[symbol.uri], symbol.range, symbol.name)
        }) by {
            let labels = after.labels.len();
            if k < stored.labels.len() {
                assert(after.symbols()[k] == stored.labels[k]);
            } else if k < labels {
                assert(after.symbols()[k] == symbols_of(syntax.labels, uri)[k
                    - stored.labels.len()]);
                lemma_taken_reads(text, syntax.labels, uri, k - stored.labels.len());
            } else if k - labels < stored.references.len() {
                assert(after.symbols()[k] == stored.references[k - labels]);
            } else {
                let at = k - labels - stored.references.len();
                assert(after.symbols()[k] == symbols_of(syntax.references, uri)[at]);
                lemma_taken_reads(text, syntax.references, uri, at);
            }
        }
    }
}

/// The symbols that are left when a file is given a new text stand in the
/// texts of other files.
proof fn lemma_kept_symbols(
    index: Index,
    symbols: Seq<SymbolView>,
    kept: Seq<SymbolView>,
    uri: Seq<char>,
    text: Seq<char>,
    offset: int,
)
    requires
        index.is_sound(),
        0 <= offset,
        offset + symbols.len() <= index.symbols().len(),
        forall|k: int| 0 <= k < symbols.len() ==> symbols[k] == index.symbols()[offset + k],
        !(index.files.insert_result(uri, text) is Exists),
        kept == if index.files.insert_result(uri, text) is Modified {
            without_file(symbols, uri)
        } else {
            symbols
        },
    ensures
        forall|k: int|
            0 <= k < kept.len() ==> {
                let symbol = #[trigger] kept[k];
                let texts = index.files.texts.insert(uri, text);
                &&& texts.contains_key(symbol.uri)
                &&& reads(texts[symbol.uri], symbol.range, symbol.name)
            },
{
    let wanted = |s: SymbolView| s.uri != uri;
    assert forall|k: int| 0 <= k < kept.len() implies ({
        let symbol = #[trigger] kept[k];
        let texts = index.files.texts.insert(uri, text);
        &&& texts.contains_key(symbol.uri)
        &&& reads(texts[symbol.uri], symbol.range, symbol.name)
    }) by {
        let symbol = kept[k];
        if index.files.insert_result(uri, text) is Modified {
            symbols.lemma_filter_pred(wanted, k);
            assert(symbols.filter(wanted).contains(symbol));
            symbols.lemma_filter_contains_rev(wanted, symbol);
        } else {
            assert(symbols.contains(symbol));
        }
        let j = choose|j: int| 0 <= j < symbols.len() && symbols[j] == symbol;
        assert(index.symbols()[offset + j] == symbol);
    }
}

/// Whether no two of the symbols that are taken from `text` share a
/// character.
pub open spec fn taken_apart(text: Seq<char>, uri: Seq<char>, syntax: SyntaxView) -> bool {
    let taken = symbols_of(syntax.labels, uri) + symbols_of(syntax.references, uri);
    forall|i: int, j: int|
        0 <= i < taken.len() && 0 <= j < taken.len() && i != j ==> apart(
            text,
            (#[trigger] taken[i]).range,
            (#[trigger] taken[j]).range,
        )
}

/// Where a symbol of the index comes from once a file was given a text: it is
/// one of those that were there, of another file, or one of those that were
/// taken from the text. Two symbols come from different places.
proof fn lemma_symbol_origin(
    index: Index,
    uri: Seq<char>,
    text: Seq<char>,
    syntax: SyntaxView,
    i: int,
    j: int,
) -> (r: (int, int))
    requires
        index.is_sound(),
        !(index.files.insert_result(uri, text) is Exists),
        0 <= i < j < index.indexed(uri, FileKind::Source, text, syntax).symbols().len(),
    ensures
        ({
            let after = index.indexed(uri, FileKind::Source, text, syntax).symbols();
            let taken = symbols_of(syntax.labels, uri) + symbols_of(syntax.references, uri);
            &&& after[i].uri == uri ==> 0 <= r.0 < taken.len() && taken[r.0] == after[i]
            &&& after[j].uri == uri ==> 0 <= r.1 < taken.len() && taken[r.1] == after[j]
            &&& after[i].uri != uri ==> 0 <= r.0 < index.symbols().len() && index.symbols()[r.0]
                == after[i]
            &&& after[j].uri != uri ==> 0 <= r.1 < index.symbols().len() && index.symbols()[r.1]
                == after[j]
            &&& after[i].uri == after[j].uri ==> r.0 < r.1
        }),
{
    let labels = symbols_of(syntax.labels, uri);
    let references = symbols_of(syntax.references, uri);
    let taken = labels + references;
    let stored = index.stored(uri, text);
    let after = index.indexed(uri, FileKind::Source, text, syntax).symbols();
    let kept = stored.labels + stored.references;
    let other = |s: SymbolView| s.uri != uri;
    Seq::filter_distributes_over_add(index.labels, index.references, other);
    assert(index.files.insert_result(uri, text) is Modified ==> kept =~= index.symbols().filter(
        other,
    ));
    assert(index.files.insert_result(uri, text) is New ==> kept =~= index.symbols());
    assert forall|k: int| 0 <= k < kept.len() implies (#[trigger] kept[k]).uri != uri by {
        if index.files.insert_result(uri, text) is Modified {
            index.symbols().lemma_filter_pred(other, k);
        } else {
            assert(index.files.texts.contains_key(index.symbols()[k].uri));
        }
    }
    let first = stored.labels.len() as int;
    let second = labels.len() as int;
    let third = stored.references.len() as int;
    assert forall|k: int| 0 <= k < after.len() implies ({
        &&& k < first ==> #[trigger] after[k] == kept[k]
        &&& first <= k < first + second ==> after[k] == taken[k - first]
        &&& first + second <= k < first + second + third ==> after[k] == kept[k - second]
        &&& first + second + third <= k ==> after[k] == taken[k - first - third]
    }) by {
    }
    assert forall|k: int| 0 <= k < taken.len() implies (#[trigger] taken[k]).uri == uri by {
        if k < labels.len() {
            assert(taken[k] == labels[k]);
        } else {
            assert(taken[k] == references[k - labels.len()]);
        }
    }
    let a = if i < first {
        i
    } else if i < first + second {
        i - first
    } else if i < first + second + third {
        i - second
    } else {
        i - first - third
    };
    let b = if j < first {
        j
    } else if j < first + second {
        j - first
    } else if j < first + second + third {
        j - second
    } else {
        j - first - third
    };
    if after[i].uri == uri && after[j].uri == uri {
        (a, b)
    } else if index.files.insert_result(uri, text) is New {
        (a, b)
    } else if after[i].uri != uri && after[j].uri != uri {
        lemma_two_kept(index.symbols(), other, a, b)
    } else if after[i].uri != uri {
        (lemma_one_kept(index.symbols(), other, a), b)
    } else {
        (a, lemma_one_kept(index.symbols(), other, b))
    }
}

/// Where the symbols of an index lie apart, they still do when a source is
/// given a text from which symbols are taken that lie apart.
pub proof fn lemma_text_keeps_apart(
    index: Index,
    uri: Seq<char>,
    text: Seq<char>,
    syntax: SyntaxView,
)
    requires
        index.is_sound(),
        index.lies_apart(),
        taken_apart(text, uri, syntax),
    ensures
        index.with_text(uri, FileKind::Source, text, syntax).lies_apart(),
{
    let known = index.indexed(uri, FileKind::Source, text, syntax);
    let after = index.with_text(uri, FileKind::Source, text, syntax);
    match index.next_files(uri, FileKind::Source, text, syntax) {
        Ok(targets) => lemma_only_links(known, uri, targets),
        Err(_) => {},
    }
    assert(after.symbols() == known.symbols());
    if index.files.insert_result(uri, text) is Exists {
        assert(after.symbols() == index.symbols());
    } else {
        assert forall|i: int, j: int|
            0 <= i < after.symbols().len() && 0 <= j < after.symbols().len() && i != j && (
            #[trigger] after.symbols()[i]).uri == (#[trigger] after.symbols()[j]).uri implies apart(
            after.files.texts[after.symbols()[i].uri],
            after.symbols()[i].range,
            after.symbols()[j].range,
        ) by {
            let (a, b) = if i < j {
                lemma_symbol_origin(index, uri, text, syntax, i, j)
            } else {
                lemma_symbol_origin(index, uri, text, syntax, j, i)
            };
            if after.symbols()[i].uri != uri {
                assert(index.symbols()[a].uri == index.symbols()[b].uri);
                assert(apart(
                    index.files.texts[index.symbols()[a].uri],
                    index.symbols()[a].range,
                    index.symbols()[b].range,
                ));
            }
        }
    }
}

/// Where the symbols of an index lie apart, they still do whatever is found at
/// an address, as long as those that are taken from what is found there lie
/// apart.
pub proof fn lemma_handled_keeps_apart(index: Index, uri: Seq<char>, content: Option<Seq<char>>)
    requires
        index.is_sound(),
        index.lies_apart(),
        match content {
            Some(text) => taken_apart(text, uri, syntax_of(text)),
            None => true,
        },
    ensures
        index.handled(uri, content).lies_apart(),
{
    if let Some(text) = content {
        let syntax = syntax_of(text);
        let kind = kind_of(uri);
        if kind is Source {
            lemma_text_keeps_apart(index, uri, text, syntax);
        } else if kind is Header {
            let nothing = SyntaxView {
                labels: Seq::empty(),
                references: Seq::empty(),
                includes: Seq::empty(),
                defines: syntax.defines,
            };
            lemma_text_keeps_apart(index, uri, text, nothing);
            let known = index.indexed(uri, FileKind::Source, text, nothing);
            let after = index.handled(uri, content);
            let other = index.with_text(uri, FileKind::Source, text, nothing);
            match index.next_files(uri, FileKind::Source, text, nothing) {
                Ok(targets) => lemma_only_links(known, uri, targets),
                Err(_) => {},
            }
            lemma_only_links(index.indexed(uri, kind, text, syntax), uri, Seq::empty());
            assert(after.labels =~= other.labels);
            assert(after.references =~= other.references);
            assert(after.files.texts == other.files.texts);
            assert(after.symbols() == other.symbols());
        }
    }
}

/// Two elements that a filter keeps are two elements of the sequence.
proof fn lemma_two_kept<A>(all: Seq<A>, keep: spec_fn(A) -> bool, i: int, j: int) -> (r: (int, int))
    requires
        0 <= i < j < all.filter(keep).len(),
    ensures
        0 <= r.0 < r.1 < all.len(),
        all[r.0] == all.filter(keep)[i],
        all[r.1] == all.filter(keep)[j],
        keep(all[r.0]),
        keep(all[r.1]),
    decreases all.len(),
{
    reveal(Seq::filter);
    let rest = all.drop_last();
    let kept = rest.filter(keep);
    all.lemma_filter_pred(keep, i);
    all.lemma_filter_pred(keep, j);
    if j < kept.len() {
        lemma_two_kept(rest, keep, i, j)
    } else {
        assert(kept.contains(kept[i]));
        rest.lemma_filter_contains_rev(keep, kept[i]);
        let a = choose|a: int| 0 <= a < rest.len() && rest[a] == kept[i];
        (a, all.len() - 1)
    }
}

/// An element that a filter keeps is an element of the sequence.
proof fn lemma_one_kept<A>(all: Seq<A>, keep: spec_fn(A) -> bool, i: int) -> (r: int)
    requires
        0 <= i < all.filter(keep).len(),
    ensures
        0 <= r < all.len(),
        all[r] == all.filter(keep)[i],
        keep(all[r]),
{
    let kept = all.filter(keep);
    all.lemma_filter_pred(keep, i);
    assert(kept.contains(kept[i]));
    all.lemma_filter_contains_rev(keep, kept[i]);
    choose|a: int| 0 <= a < all.len() && all[a] == kept[i]
}

/// The places of a name are those of the symbols that are visible.
proof fn lemma_places_of_symbols(index: Index, uri: Seq<char>, name: Seq<char>)
    ensures
        index.name_places(uri, name) == index.symbols().filter(
            |s: SymbolView| s.is_visible(index.files, uri, name),
        ).map_values(|s: SymbolView| s.location()),
{
    let visible = |s: SymbolView| s.is_visible(index.files, uri, name);
    let place = |s: SymbolView| s.location();
    Seq::filter_distributes_over_add(index.labels, index.references, visible);
    assert(index.name_places(uri, name) =~= index.symbols().filter(visible).map_values(place));
}

/// Whether `symbol` is what `edit` of `file` puts `new_name` in place of.
pub open spec fn is_source_of(
    index: Index,
    uri: Seq<char>,
    name: Seq<char>,
    symbol: SymbolView,
    file: Seq<char>,
    range: Range,
) -> bool {
    &&& symbol.is_visible(index.files, uri, name)
    &&& symbol.uri == file
    &&& symbol.range == range
}

/// Each edit that a new name takes is made to a symbol.
pub(crate) proof fn lemma_edit_source(
    index: Index,
    uri: Seq<char>,
    name: Seq<char>,
    new_name: Seq<char>,
    file: Seq<char>,
    k: int,
) -> (r: int)
    requires
        0 <= k < edits_in(index.name_places(uri, name), file, new_name).len(),
    ensures
        0 <= r < index.symbols().len(),
        is_source_of(
            index,
            uri,
            name,
            index.symbols()[r],
            file,
            edits_in(index.name_places(uri, name), file, new_name)[k].range,
        ),
        edits_in(index.name_places(uri, name), file, new_name)[k].new_text == new_name,
{
    let all = index.name_places(uri, name);
    let visible = |s: SymbolView| s.is_visible(index.files, uri, name);
    lemma_places_of_symbols(index, uri, name);
    let a = lemma_one_kept(all, |p: LocationView| p.uri == file, k);
    lemma_one_kept(index.symbols(), visible, a)
}

/// Two edits that a new name takes are made to two symbols.
proof fn lemma_edit_sources(
    index: Index,
    uri: Seq<char>,
    name: Seq<char>,
    new_name: Seq<char>,
    file: Seq<char>,
    i: int,
    j: int,
) -> (r: (int, int))
    requires
        0 <= i < j < edits_in(index.name_places(uri, name), file, new_name).len(),
    ensures
        0 <= r.0 < r.1 < index.symbols().len(),
        is_source_of(
            index,
            uri,
            name,
            index.symbols()[r.0],
            file,
            edits_in(index.name_places(uri, name), file, new_name)[i].range,
        ),
        is_source_of(
            index,
            uri,
            name,
            index.symbols()[r.1],
            file,
            edits_in(index.name_places(uri, name), file, new_name)[j].range,
        ),
{
    let all = index.name_places(uri, name);
    let visible = |s: SymbolView| s.is_visible(index.files, uri, name);
    lemma_places_of_symbols(index, uri, name);
    let (a, b) = lemma_two_kept(all, |p: LocationView| p.uri == file, i, j);
    lemma_two_kept(index.symbols(), visible, a, b)
}

/// Each visible symbol is edited.
pub(crate) proof fn lemma_symbol_is_edited(
    index: Index,
    uri: Seq<char>,
    name: Seq<char>,
    new_name: Seq<char>,
    k: int,
) -> (r: int)
    requires
        0 <= k < index.symbols().len(),
        index.symbols()[k].is_visible(index.files, uri, name),
    ensures
        ({
            let all = index.name_places(uri, name);
            let symbol = index.symbols()[k];
            let edits = edits_in(all, symbol.uri, new_name);
            &&& has_place_in(all, symbol.uri)
            &&& 0 <= r < edits.len()
            &&& edits[r] == edit_at(symbol.location(), new_name)
        }),
{
    let all = index.name_places(uri, name);
    let symbol = index.symbols()[k];
    let visible = |s: SymbolView| s.is_visible(index.files, uri, name);
    let found = index.symbols().filter(visible);
    lemma_places_of_symbols(index, uri, name);
    index.symbols().lemma_filter_contains(visible, k);
    let a = choose|a: int| 0 <= a < found.len() && found[a] == symbol;
    assert(all[a] == symbol.location());
    let inside = |p: LocationView| p.uri == symbol.uri;
    all.lemma_filter_contains(inside, a);
    let kept = all.filter(inside);
    assert(kept.contains(all[a]));
    choose|b: int| 0 <= b < kept.len() && kept[b] == all[a]
}

/// What has no line end stands on one line.
proof fn lemma_name_on_line(text: Seq<char>, range: Range, name: Seq<char>)
    requires
        reads(text, range, name),
        !name.contains('\n'),
    ensures
        range.start.line == range.end.line,
{
    let from = offset_of(text, range.start);
    let to = offset_of(text, range.end);
    assert forall|i: int| from <= i < to implies (#[trigger] text[i]) != '\n' by {
        assert(name[i - from] == text[i]);
        assert(name.contains(name[i - from]));
    }
    lemma_no_line_end(text, from, to);
}

proof fn lemma_no_line_end(text: Seq<char>, from: int, to: int)
    requires
        0 <= from <= to,
        forall|i: int| from <= i < to ==> (#[trigger] text[i]) != '\n',
    ensures
        line_of(text, from) == line_of(text, to),
    decreases to - from,
{
    if from < to {
        lemma_no_line_end(text, from, to - 1);
    }
}

/// The edits that a new name takes replace parts of single lines that do not
/// overlap.
pub(crate) proof fn lemma_rename_is_orderly(
    index: Index,
    uri: Seq<char>,
    name: Seq<char>,
    new_name: Seq<char>,
    file: Seq<char>,
)
    requires
        index.is_sound(),
        index.lies_apart(),
        name.len() > 0,
        !name.contains('\n'),
        !new_name.contains('\n'),
    ensures
        orderly(
            index.files.texts[file],
            edits_in(index.name_places(uri, name), file, new_name),
        ),
{
    let text = index.files.texts[file];
    let edits = edits_in(index.name_places(uri, name), file, new_name);
    assert forall|k: int| 0 <= k < edits.len() implies within_line(text, #[trigger] edits[k]) by {
        let at = lemma_edit_source(index, uri, name, new_name, file, k);
        let symbol = index.symbols()[at];
        assert(reads(text, symbol.range, name));
        lemma_name_on_line(text, symbol.range, name);
        assert(text.subrange(
            offset_of(text, symbol.range.start),
            offset_of(text, symbol.range.end),
        ).len() > 0);
    }
    assert forall|i: int, j: int|
        0 <= i < edits.len() && 0 <= j < edits.len() && i != j implies apart(
        text,
        (#[trigger] edits[i]).range,
        (#[trigger] edits[j]).range,
    ) by {
        if i < j {
            let (a, b) = lemma_edit_sources(index, uri, name, new_name, file, i, j);
            assert(index.symbols()[a].uri == index.symbols()[b].uri);
        } else {
            let (a, b) = lemma_edit_sources(index, uri, name, new_name, file, j, i);
            assert(index.symbols()[a].uri == index.symbols()[b].uri);
        }
    }
}

/// No edit that a new name takes replaces an end of a symbol's range, nor
/// any of the symbol unless it is one that is renamed.
pub(crate) proof fn lemma_symbol_is_clear(
    index: Index,
    uri: Seq<char>,
    name: Seq<char>,
    new_name: Seq<char>,
    k: int,
)
    requires
        index.is_sound(),
        index.lies_apart(),
        0 <= k < index.symbols().len(),
    ensures
        ({
            let symbol = index.symbols()[k];
            let text = index.files.texts[symbol.uri];
            let edits = edits_in(index.name_places(uri, name), symbol.uri, new_name);
            &&& clear(text, edits, offset_of(text, symbol.range.start))
            &&& clear(text, edits, offset_of(text, symbol.range.end))
            &&& !symbol.is_visible(index.files, uri, name) ==> untouched(
                text,
                edits,
                symbol.range,
            )
        }),
{
    let symbol = index.symbols()[k];
    let text = index.files.texts[symbol.uri];
    let edits = edits_in(index.name_places(uri, name), symbol.uri, new_name);
    let from = offset_of(text, symbol.range.start);
    let to = offset_of(text, symbol.range.end);
    assert(reads(text, symbol.range, symbol.name));
    assert forall|j: int| 0 <= j < edits.len() implies ({
        let start = offset_of(text, (#[trigger] edits[j]).range.start);
        let end = offset_of(text, edits[j].range.end);
        &&& from <= start || end <= from
        &&& to <= start || end <= to
        &&& !symbol.is_visible(index.files, uri, name) ==> apart(
            text,
            edits[j].range,
            symbol.range,
        )
    }) by {
        let at = lemma_edit_source(index, uri, name, new_name, symbol.uri, j);
        let other = index.symbols()[at];
        assert(reads(text, other.range, other.name));
        if at != k {
            assert(other.uri == symbol.uri);
            assert(apart(text, other.range, symbol.range));
        }
    }
}

/// What lies apart lies apart where the edits moved it.
proof fn lemma_moved_apart(text: Seq<char>, edits: Seq<TextEditView>, a: Range, b: Range)
    requires
        orderly(text, edits),
        text_width(edited(text, edits)) <= u32::MAX,
        apart(text, a, b),
        stands_at(text, a.start, offset_of(text, a.start)),
        stands_at(text, a.end, offset_of(text, a.end)),
        stands_at(text, b.start, offset_of(text, b.start)),
        stands_at(text, b.end, offset_of(text, b.end)),
        clear(text, edits, offset_of(text, a.start)),
        clear(text, edits, offset_of(text, a.end)),
        clear(text, edits, offset_of(text, b.start)),
        clear(text, edits, offset_of(text, b.end)),
    ensures
        apart(edited(text, edits), moved_range(a, edits), moved_range(b, edits)),
{
    lemma_moved_order(text, edits, a.end, b.start);
    lemma_moved_order(text, edits, b.end, a.start);
}

proof fn lemma_moved_order(text: Seq<char>, edits: Seq<TextEditView>, a: Position, b: Position)
    requires
        orderly(text, edits),
        text_width(edited(text, edits)) <= u32::MAX,
        stands_at(text, a, offset_of(text, a)),
        stands_at(text, b, offset_of(text, b)),
        clear(text, edits, offset_of(text, a)),
        clear(text, edits, offset_of(text, b)),
    ensures
        offset_of(text, a) <= offset_of(text, b) ==> offset_of(
            edited(text, edits),
            moved(a, edits),
        ) <= offset_of(edited(text, edits), moved(b, edits)),
{
    let from = offset_of(text, a);
    let to = offset_of(text, b);
    let all = edited(text, edits);
    lemma_moved(text, edits, a, from);
    lemma_moved(text, edits, b, to);
    lemma_offset(all, moved(a, edits), edited_prefix(text, edits, from as nat).len() as int);
    lemma_offset(all, moved(b, edits), edited_prefix(text, edits, to as nat).len() as int);
    if from <= to {
        lemma_prefix_of(text, edits, from as nat, to as nat);
    }
}

pub proof fn lemma_shift_add(position: Position, a: Seq<TextEditView>, b: Seq<TextEditView>)
    ensures
        column_shift(position, a + b) == column_shift(position, a) + column_shift(position, b),
    decreases b.len(),
{
    if b.len() == 0 {
        assert(a + b =~= a);
    } else {
        assert((a + b).drop_last() =~= a + b.drop_last());
        assert((a + b).last() == b.last());
        lemma_shift_add(position, a, b.drop_last());
    }
}

/// By how many columns `edit` moves what follows it on its line.
spec fn columns_added(edit: TextEditView) -> int {
    as_column(text_width(edit.new_text) as int) + edit.range.start.character
        - edit.range.end.character
}

/// Edits that do not stand in front of a position, or take up no more columns
/// than what they replace, do not move it.
proof fn lemma_zero_shift(position: Position, edits: Seq<TextEditView>)
    requires
        forall|k: int|
            0 <= k < edits.len() ==> !ends_before(#[trigger] edits[k], position)
                || columns_added(edits[k]) == 0,
    ensures
        column_shift(position, edits) == 0,
    decreases edits.len(),
{
    if edits.len() > 0 {
        let rest = edits.drop_last();
        assert forall|k: int| 0 <= k < rest.len() implies !ends_before(
            #[trigger] rest[k],
            position,
        ) || columns_added(rest[k]) == 0 by {
            assert(rest[k] == edits[k]);
        }
        lemma_zero_shift(position, rest);
        assert(edits[edits.len() - 1] == edits.last());
    }
}

proof fn lemma_column_span(text: Seq<char>, from: int, to: int)
    requires
        0 <= from <= to <= text.len(),
        forall|i: int| from <= i < to ==> (#[trigger] text[i]) != '\n',
    ensures
        column_of(text, to) == column_of(text, from) + text_width(text.subrange(from, to)),
    decreases to - from,
{
    let part = text.subrange(from, to);
    if from < to {
        assert(part.drop_last() =~= text.subrange(from, to - 1));
        assert(part.last() == text[to - 1]);
        lemma_column_span(text, from, to - 1);
    }
}

/// A name that takes up as many columns as the one it replaces adds none.
proof fn lemma_same_width(
    text: Seq<char>,
    range: Range,
    name: Seq<char>,
    new_name: Seq<char>,
)
    requires
        reads(text, range, name),
        !name.contains('\n'),
        text_width(name) == text_width(new_name),
    ensures
        columns_added(TextEditView { range, new_text: new_name }) == 0,
{
    let from = offset_of(text, range.start);
    let to = offset_of(text, range.end);
    assert forall|i: int| from <= i < to implies (#[trigger] text[i]) != '\n' by {
        assert(name[i - from] == text[i]);
        assert(name.contains(name[i - from]));
    }
    lemma_column_span(text, from, to);
}

/// The edits of a file that a change of a name takes, for one of the tables.
proof fn lemma_edits_of_table(
    symbols: Seq<SymbolView>,
    files: Files,
    uri: Seq<char>,
    name: Seq<char>,
    new_name: Seq<char>,
    file: Seq<char>,
)
    requires
        files.connects(uri, file),
    ensures
        edits_in(places(symbols, files, uri, name), file, new_name) == own_edits(
            symbols,
            file,
            name,
            new_name,
        ),
    decreases symbols.len(),
{
    let visible = |s: SymbolView| s.is_visible(files, uri, name);
    let inside = |p: LocationView| p.uri == file;
    let own = |s: SymbolView| s.uri == file && s.name == name;
    if symbols.len() == 0 {
        reveal(Seq::filter);
        assert(places(symbols, files, uri, name) =~= Seq::empty());
        assert(edits_in(places(symbols, files, uri, name), file, new_name) =~= Seq::empty());
        assert(own_edits(symbols, file, name, new_name) =~= Seq::empty());
    } else {
        let rest = symbols.drop_last();
        let last = symbols.last();
        lemma_edits_of_table(rest, files, uri, name, new_name, file);
        assert(symbols =~= rest.push(last));
        rest.lemma_filter_push(last, visible);
        rest.lemma_filter_push(last, own);
        let before = places(rest, files, uri, name);
        if visible(last) {
            assert(places(symbols, files, uri, name) =~= before.push(last.location()));
            before.lemma_filter_push(last.location(), inside);
        } else {
            assert(places(symbols, files, uri, name) =~= before);
        }
        let edits = edits_in(places(symbols, files, uri, name), file, new_name);
        let edit = edit_at(last.location(), new_name);
        if own(last) {
            assert(edits =~= edits_in(before, file, new_name).push(edit));
            assert(own_edits(symbols, file, name, new_name) =~= own_edits(
                rest,
                file,
                name,
                new_name,
            ).push(edit));
        } else {
            assert(edits =~= edits_in(before, file, new_name));
            assert(own_edits(symbols, file, name, new_name) =~= own_edits(
                rest,
                file,
                name,
                new_name,
            ));
        }
    }
}

/// The edits of a file are those of its labels, then those of its references.
proof fn lemma_edits_of_file(
    index: Index,
    uri: Seq<char>,
    name: Seq<char>,
    new_name: Seq<char>,
    file: Seq<char>,
)
    requires
        index.files.connects(uri, file),
    ensures
        edits_in(index.name_places(uri, name), file, new_name) == own_edits(
            index.labels,
            file,
            name,
            new_name,
        ) + own_edits(index.references, file, name, new_name),
{
    let labels = places(index.labels, index.files, uri, name);
    let references = places(index.references, index.files, uri, name);
    Seq::filter_distributes_over_add(labels, references, |p: LocationView| p.uri == file);
    lemma_edits_of_table(index.labels, index.files, uri, name, new_name, file);
    lemma_edits_of_table(index.references, index.files, uri, name, new_name, file);
    assert(edits_in(labels + references, file, new_name) =~= edits_in(labels, file, new_name)
        + edits_in(references, file, new_name));
}

/// What holds of an edit of one of the tables: it is made to a symbol of it,
/// and adds no column where both names are as long as each other.
proof fn lemma_own_edit(
    index: Index,
    symbols: Seq<SymbolView>,
    offset: int,
    file: Seq<char>,
    name: Seq<char>,
    new_name: Seq<char>,
    k: int,
) -> (r: int)
    requires
        index.is_sound(),
        !name.contains('\n'),
        0 <= offset,
        offset + symbols.len() <= index.symbols().len(),
        forall|j: int| 0 <= j < symbols.len() ==> symbols[j] == index.symbols()[offset + j],
        0 <= k < own_edits(symbols, file, name, new_name).len(),
    ensures
        0 <= r < symbols.len(),
        symbols[r].uri == file,
        symbols[r].name == name,
        symbols[r].range == own_edits(symbols, file, name, new_name)[k].range,
        text_width(name) == text_width(new_name) ==> columns_added(
            own_edits(symbols, file, name, new_name)[k],
        ) == 0,
{
    let own = |s: SymbolView| s.uri == file && s.name == name;
    let at = lemma_one_kept(symbols, own, k);
    assert(index.symbols()[offset + at] == symbols[at]);
    if text_width(name) == text_width(new_name) {
        lemma_same_width(index.files.texts[file], symbols[at].range, name, new_name);
    }
    at
}

/// The edits of the one table do not move a symbol of the other.
proof fn lemma_other_table(
    index: Index,
    uri: Seq<char>,
    name: Seq<char>,
    new_name: Seq<char>,
    file: Seq<char>,
    range: Range,
    labels: bool,
    k: int,
)
    requires
        index.is_sound(),
        index.moves_apart(uri, name, new_name),
        !name.contains('\n'),
        index.files.connects(uri, file),
        labels ==> 0 <= k < index.references.len() && index.references[k].uri == file
            && index.references[k].range == range,
        !labels ==> 0 <= k < index.labels.len() && index.labels[k].uri == file
            && index.labels[k].range == range,
    ensures
        ({
            let edits = own_edits(
                if labels {
                    index.labels
                } else {
                    index.references
                },
                file,
                name,
                new_name,
            );
            column_shift(range.start, edits) == 0 && column_shift(range.end, edits) == 0
        }),
{
    let symbols = if labels {
        index.labels
    } else {
        index.references
    };
    let offset = if labels {
        0
    } else {
        index.labels.len() as int
    };
    let edits = own_edits(symbols, file, name, new_name);
    assert forall|j: int| 0 <= j < edits.len() implies columns_added(#[trigger] edits[j]) == 0
        || !ends_before(edits[j], range.start) && !ends_before(edits[j], range.end) by {
        let at = lemma_own_edit(index, symbols, offset, file, name, new_name, j);
        if text_width(name) != text_width(new_name) {
            if labels {
                assert(index.labels[at].uri == index.references[k].uri);
            } else {
                assert(index.labels[k].uri == index.references[at].uri);
            }
            assert(!in_front(symbols[at].range, range));
        }
    }
    lemma_zero_shift(range.start, edits);
    lemma_zero_shift(range.end, edits);
}

/// Edits of names that are as long as each other move nothing.
proof fn lemma_same_length_moves_nothing(
    index: Index,
    uri: Seq<char>,
    name: Seq<char>,
    new_name: Seq<char>,
    file: Seq<char>,
    position: Position,
)
    requires
        index.is_sound(),
        !name.contains('\n'),
        text_width(name) == text_width(new_name),
    ensures
        moved(position, edits_in(index.name_places(uri, name), file, new_name)) == position,
{
    let edits = edits_in(index.name_places(uri, name), file, new_name);
    assert forall|k: int| 0 <= k < edits.len() implies columns_added(#[trigger] edits[k]) == 0 by {
        let at = lemma_edit_source(index, uri, name, new_name, file, k);
        lemma_same_width(index.files.texts[file], index.symbols()[at].range, name, new_name);
    }
    lemma_zero_shift(position, edits);
}

/// Where one table moves its symbols, that is where all edits move them.
proof fn lemma_moved_along(
    index: Index,
    uri: Seq<char>,
    name: Seq<char>,
    new_name: Seq<char>,
    labels: bool,
    k: int,
)
    requires
        index.is_sound(),
        index.moves_apart(uri, name, new_name),
        !name.contains('\n'),
        0 <= k < (if labels {
            index.labels.len()
        } else {
            index.references.len()
        }),
        index.files.connects(
            uri,
            (if labels {
                index.labels[k]
            } else {
                index.references[k]
            }).uri,
        ),
    ensures
        ({
            let symbols = if labels {
                index.labels
            } else {
                index.references
            };
            let symbol = symbols[k];
            let all = edits_in(index.name_places(uri, name), symbol.uri, new_name);
            moved_range(symbol.range, own_edits(symbols, symbol.uri, name, new_name))
                == moved_range(symbol.range, all)
        }),
{
    let symbol = if labels {
        index.labels[k]
    } else {
        index.references[k]
    };
    let range = symbol.range;
    let first = own_edits(index.labels, symbol.uri, name, new_name);
    let second = own_edits(index.references, symbol.uri, name, new_name);
    lemma_edits_of_file(index, uri, name, new_name, symbol.uri);
    lemma_shift_add(range.start, first, second);
    lemma_shift_add(range.end, first, second);
    lemma_other_table(index, uri, name, new_name, symbol.uri, range, !labels, k);
}

/// What a new name makes of one symbol where labels and references do not
/// move each other: it is named, and moved as the edits move it.
pub(crate) proof fn lemma_renamed_symbol(
    index: Index,
    uri: Seq<char>,
    name: Seq<char>,
    new_name: Seq<char>,
    k: int,
)
    requires
        index.is_sound(),
        index.moves_apart(uri, name, new_name),
        !name.contains('\n'),
        0 <= k < index.symbols().len(),
    ensures
        ({
            let after = index.renamed(uri, name, new_name);
            let all = index.name_places(uri, name);
            let symbol = index.symbols()[k];
            let visible = symbol.is_visible(index.files, uri, name);
            &&& after.symbols().len() == index.symbols().len()
            &&& after.symbols()[k] == (SymbolView {
                name: if visible {
                    new_name
                } else {
                    symbol.name
                },
                uri: symbol.uri,
                range: if has_place_in(all, symbol.uri) {
                    moved_range(symbol.range, edits_in(all, symbol.uri, new_name))
                } else {
                    symbol.range
                },
            })
            &&& after.files.texts.contains_key(symbol.uri) == index.files.texts.contains_key(
                symbol.uri,
            )
            &&& index.files.texts.contains_key(symbol.uri) ==> after.files.texts[symbol.uri]
                == if has_place_in(all, symbol.uri) {
                edited(index.files.texts[symbol.uri], edits_in(all, symbol.uri, new_name))
            } else {
                index.files.texts[symbol.uri]
            }
        }),
{
    let after = index.renamed(uri, name, new_name);
    let all = index.name_places(uri, name);
    let symbol = index.symbols()[k];
    let labels = k < index.labels.len();
    let at = if labels {
        k
    } else {
        k - index.labels.len()
    };
    if labels {
        assert(after.symbols()[k] == after.labels[at]);
    } else {
        assert(after.symbols()[k] == after.references[at]);
    }
    let edits = edits_in(all, symbol.uri, new_name);
    if has_place_in(all, symbol.uri) {
        let j = choose|j: int| 0 <= j < all.len() && (#[trigger] all[j]).uri == symbol.uri;
        all.lemma_filter_contains(|p: LocationView| p.uri == symbol.uri, j);
        let from = lemma_edit_source(index, uri, name, new_name, symbol.uri, 0);
        assert(index.files.connects(uri, symbol.uri));
    } else {
        lemma_no_place(all, symbol.uri, new_name);
        assert(moved_range(symbol.range, edits) == symbol.range);
    }
    if name == new_name {
        lemma_same_length_moves_nothing(
            index,
            uri,
            name,
            new_name,
            symbol.uri,
            symbol.range.start,
        );
        lemma_same_length_moves_nothing(index, uri, name, new_name, symbol.uri, symbol.range.end);
    } else if index.files.connects(uri, symbol.uri) {
        lemma_moved_along(index, uri, name, new_name, labels, at);
    }
}

/// An index that is sound, and in which no two symbols share a character,
/// stays so when a name is changed in the texts and in the index, if labels
/// and references do not move each other: wherever the name stood, the new
/// texts read the new name, and what else they hold is found where it was
/// moved to.
pub proof fn lemma_rename_keeps_sound(
    index: Index,
    uri: Seq<char>,
    name: Seq<char>,
    new_name: Seq<char>,
)
    requires
        index.is_sound(),
        index.lies_apart(),
        name.len() > 0,
        !name.contains('\n'),
        !new_name.contains('\n'),
        index.moves_apart(uri, name, new_name),
        index.renamed(uri, name, new_name).is_countable(),
    ensures
        index.renamed(uri, name, new_name).is_sound(),
        index.renamed(uri, name, new_name).lies_apart(),
{
    let after = index.renamed(uri, name, new_name);
    let all = index.name_places(uri, name);
    assert forall|k: int| 0 <= k < after.symbols().len() implies ({
        let symbol = #[trigger] after.symbols()[k];
        &&& after.files.texts.contains_key(symbol.uri)
        &&& reads(after.files.texts[symbol.uri], symbol.range, symbol.name)
    }) by {
        assert(after.symbols().len() == index.symbols().len());
        let symbol = index.symbols()[k];
        let text = index.files.texts[symbol.uri];
        let edits = edits_in(all, symbol.uri, new_name);
        lemma_renamed_symbol(index, uri, name, new_name, k);
        assert(reads(text, symbol.range, symbol.name));
        assert(after.files.texts.contains_key(symbol.uri));
        lemma_rename_is_orderly(index, uri, name, new_name, symbol.uri);
        if symbol.is_visible(index.files, uri, name) {
            let j = lemma_symbol_is_edited(index, uri, name, new_name, k);
            lemma_edit_reads(text, edits, j);
        } else if has_place_in(all, symbol.uri) {
            lemma_symbol_is_clear(index, uri, name, new_name, k);
            lemma_untouched_reads(text, edits, symbol.range, symbol.name);
        }
    }
    assert forall|i: int, j: int|
        0 <= i < after.symbols().len() && 0 <= j < after.symbols().len() && i != j && (
        #[trigger] after.symbols()[i]).uri == (#[trigger] after.symbols()[j]).uri implies apart(
        after.files.texts[after.symbols()[i].uri],
        after.symbols()[i].range,
        after.symbols()[j].range,
    ) by {
        assert(after.symbols().len() == index.symbols().len());
        let a = index.symbols()[i];
        let b = index.symbols()[j];
        lemma_renamed_symbol(index, uri, name, new_name, i);
        lemma_renamed_symbol(index, uri, name, new_name, j);
        let text = index.files.texts[a.uri];
        assert(apart(text, a.range, b.range));
        if has_place_in(all, a.uri) {
            let edits = edits_in(all, a.uri, new_name);
            lemma_rename_is_orderly(index, uri, name, new_name, a.uri);
            lemma_symbol_is_clear(index, uri, name, new_name, i);
            lemma_symbol_is_clear(index, uri, name, new_name, j);
            assert(after.files.texts.contains_key(a.uri));
            lemma_moved_apart(text, edits, a.range, b.range);
        }
    }
}

} // verus!
