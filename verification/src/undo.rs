//! A change of a name can be taken back.

use crate::data::Index;
use crate::edit::{
    edited, edited_at, edited_prefix, ends_before, moved, moved_range, offset_of, removed_at,
    text_width,
};
use crate::rename::{edits_in, has_place_in};
use crate::soundness::{
    in_front, lemma_edit_source, lemma_rename_is_orderly, lemma_rename_keeps_sound,
    lemma_renamed_symbol, lemma_symbol_is_clear, lemma_symbol_is_edited,
};
use crate::tracking::{
    apart, clear, lemma_moved, lemma_nothing_inserted, lemma_offset, lemma_one_line,
    lemma_prefix_of,
    lemma_replaced, lemma_stays, orderly, reads, stands_at, within_line,
};
use crate::types::{LocationView, Position, TextEditView};
use vstd::prelude::*;

verus! {

/// Whether `other` puts back what `edits[k]` replaced.
spec fn puts_back(
    text: Seq<char>,
    edits: Seq<TextEditView>,
    k: int,
    other: TextEditView,
) -> bool {
    &&& other.range == moved_range(edits[k].range, edits)
    &&& other.new_text == text.subrange(
        offset_of(text, edits[k].range.start),
        offset_of(text, edits[k].range.end),
    )
}

/// Whether one of `back` puts back what `edits[k]` replaced.
spec fn is_put_back(
    text: Seq<char>,
    edits: Seq<TextEditView>,
    k: int,
    back: Seq<TextEditView>,
) -> bool {
    exists|j: int| 0 <= j < back.len() && #[trigger] puts_back(text, edits, k, back[j])
}

/// Whether `other` puts back what one of `edits` replaced.
spec fn was_replaced(text: Seq<char>, edits: Seq<TextEditView>, other: TextEditView) -> bool {
    exists|k: int| 0 <= k < edits.len() && #[trigger] puts_back(text, edits, k, other)
}

/// Whether `back` are the edits that take `edits` to `text` back: for each
/// edit there is one that puts back what it replaced, and there are no
/// others.
spec fn takes_back(text: Seq<char>, edits: Seq<TextEditView>, back: Seq<TextEditView>) -> bool {
    &&& forall|k: int|
        0 <= k < edits.len() ==> #[trigger] is_put_back(text, edits, k, back)
    &&& forall|j: int|
        0 <= j < back.len() ==> #[trigger] was_replaced(text, edits, back[j])
}

/// The edit that puts back what an edit replaced.
proof fn lemma_put_back(
    text: Seq<char>,
    edits: Seq<TextEditView>,
    back: Seq<TextEditView>,
    k: int,
) -> (j: int)
    requires
        takes_back(text, edits, back),
        0 <= k < edits.len(),
    ensures
        0 <= j < back.len(),
        puts_back(text, edits, k, back[j]),
{
    assert(is_put_back(text, edits, k, back));
    choose|j: int| 0 <= j < back.len() && #[trigger] puts_back(text, edits, k, back[j])
}

/// The edit that replaced what an edit puts back.
proof fn lemma_was_replaced(
    text: Seq<char>,
    edits: Seq<TextEditView>,
    back: Seq<TextEditView>,
    j: int,
) -> (k: int)
    requires
        takes_back(text, edits, back),
        0 <= j < back.len(),
    ensures
        0 <= k < edits.len(),
        puts_back(text, edits, k, back[j]),
{
    assert(was_replaced(text, edits, back[j]));
    choose|k: int| 0 <= k < edits.len() && #[trigger] puts_back(text, edits, k, back[j])
}

/// Where the range of an edit lies once all edits were made.
proof fn lemma_edit_offsets(text: Seq<char>, edits: Seq<TextEditView>, k: int)
    requires
        orderly(text, edits),
        0 <= k < edits.len(),
        text_width(edited(text, edits)) <= u32::MAX,
    ensures
        ({
            let range = edits[k].range;
            let from = offset_of(text, range.start);
            let to = offset_of(text, range.end);
            let all = edited(text, edits);
            &&& clear(text, edits, from)
            &&& clear(text, edits, to)
            &&& offset_of(all, moved(range.start, edits)) == edited_prefix(
                text,
                edits,
                from as nat,
            ).len()
            &&& offset_of(all, moved(range.end, edits)) == edited_prefix(
                text,
                edits,
                to as nat,
            ).len()
        }),
{
    let range = edits[k].range;
    let from = offset_of(text, range.start);
    let to = offset_of(text, range.end);
    let all = edited(text, edits);
    assert(within_line(text, edits[k]));
    assert forall|j: int| 0 <= j < edits.len() implies (from <= offset_of(
        text,
        (#[trigger] edits[j]).range.start,
    ) || offset_of(text, edits[j].range.end) <= from) && (to <= offset_of(
        text,
        edits[j].range.start,
    ) || offset_of(text, edits[j].range.end) <= to) by {
        assert(within_line(text, edits[j]));
        if j != k {
            assert(apart(text, edits[j].range, range));
        }
    }
    lemma_moved(text, edits, range.start, from);
    lemma_moved(text, edits, range.end, to);
    lemma_offset(
        all,
        moved(range.start, edits),
        edited_prefix(text, edits, from as nat).len() as int,
    );
    lemma_offset(
        all,
        moved(range.end, edits),
        edited_prefix(text, edits, to as nat).len() as int,
    );
}

/// What is in no replaced range is in none of the ranges that are put back.
proof fn lemma_clear_back(
    text: Seq<char>,
    edits: Seq<TextEditView>,
    back: Seq<TextEditView>,
    at: int,
)
    requires
        orderly(text, edits),
        takes_back(text, edits, back),
        text_width(edited(text, edits)) <= u32::MAX,
        0 <= at <= text.len(),
        clear(text, edits, at),
    ensures
        clear(edited(text, edits), back, edited_prefix(text, edits, at as nat).len() as int),
{
    let all = edited(text, edits);
    let end = edited_prefix(text, edits, at as nat).len() as int;
    assert forall|j: int| 0 <= j < back.len() implies end <= offset_of(
        all,
        (#[trigger] back[j]).range.start,
    ) || offset_of(all, back[j].range.end) <= end by {
        let k = lemma_was_replaced(text, edits, back, j);
        let from = offset_of(text, edits[k].range.start);
        let to = offset_of(text, edits[k].range.end);
        lemma_edit_offsets(text, edits, k);
        assert(within_line(text, edits[k]));
        if at <= from {
            lemma_prefix_of(text, edits, at as nat, from as nat);
        } else {
            lemma_prefix_of(text, edits, to as nat, at as nat);
        }
    }
}

/// What becomes of the start of a text becomes that start again.
proof fn lemma_prefix_undone(
    text: Seq<char>,
    edits: Seq<TextEditView>,
    back: Seq<TextEditView>,
    at: int,
)
    requires
        orderly(text, edits),
        takes_back(text, edits, back),
        text_width(edited(text, edits)) <= u32::MAX,
        orderly(edited(text, edits), back),
        0 <= at <= text.len(),
        clear(text, edits, at),
    ensures
        edited_prefix(
            edited(text, edits),
            back,
            edited_prefix(text, edits, at as nat).len(),
        ) == text.take(at),
    decreases at,
{
    let all = edited(text, edits);
    let before = edited_prefix(text, edits, at as nat);
    if at == 0 {
        assert(text.take(at) =~= Seq::empty());
    } else if removed_at(text, edits, at - 1) {
        let k = choose|k: int|
            0 <= k < edits.len() && offset_of(text, (#[trigger] edits[k]).range.start) <= at - 1
                < offset_of(text, edits[k].range.end);
        let from = offset_of(text, edits[k].range.start);
        assert(within_line(text, edits[k]));
        assert(at == offset_of(text, edits[k].range.end));
        lemma_edit_offsets(text, edits, k);
        lemma_prefix_undone(text, edits, back, from);
        let j = lemma_put_back(text, edits, back, k);
        assert(within_line(all, back[j]));
        lemma_replaced(all, back, j, before.len() as int);
        assert(text.take(from) + text.subrange(from, at) =~= text.take(at));
    } else {
        lemma_stays(text, edits, at);
        assert forall|j: int| 0 <= j < edits.len() implies at - 1 <= offset_of(
            text,
            (#[trigger] edits[j]).range.start,
        ) || offset_of(text, edits[j].range.end) <= at - 1 by {
        }
        lemma_prefix_undone(text, edits, back, at - 1);
        let shorter = edited_prefix(text, edits, (at - 1) as nat);
        lemma_prefix_of(text, edits, at as nat, text.len() + 1);
        assert(all.take(before.len() as int)[shorter.len() as int] == text[at - 1]);
        assert forall|j: int| 0 <= j < back.len() implies before.len() <= offset_of(
            all,
            (#[trigger] back[j]).range.start,
        ) || offset_of(all, back[j].range.end) <= shorter.len() by {
            let k = lemma_was_replaced(text, edits, back, j);
            let from = offset_of(text, edits[k].range.start);
            let to = offset_of(text, edits[k].range.end);
            lemma_edit_offsets(text, edits, k);
            assert(within_line(text, edits[k]));
            if at <= from {
                lemma_prefix_of(text, edits, at as nat, from as nat);
            } else {
                assert(to <= at - 1);
                lemma_prefix_of(text, edits, to as nat, (at - 1) as nat);
            }
        }
        assert(!removed_at(all, back, shorter.len() as int));
        lemma_stays(all, back, before.len() as int);
        assert(text.take(at) =~= text.take(at - 1).push(text[at - 1]));
    }
}

proof fn lemma_end_is_clear(text: Seq<char>, edits: Seq<TextEditView>)
    requires
        orderly(text, edits),
    ensures
        clear(text, edits, text.len() as int),
        edited(text, edits) == edited_prefix(text, edits, text.len()),
{
    assert forall|k: int| 0 <= k < edits.len() implies offset_of(
        text,
        (#[trigger] edits[k]).range.end,
    ) <= text.len() && offset_of(text, edits[k].range.start) != text.len() by {
        assert(within_line(text, edits[k]));
    }
    lemma_nothing_inserted(text, edits, text.len() as int);
    assert(edited_at(text, edits, text.len() as int) =~= Seq::empty());
    assert(edited(text, edits) =~= edited_prefix(text, edits, text.len()));
}

/// Edits that are taken back leave the text as it was.
proof fn lemma_text_undone(text: Seq<char>, edits: Seq<TextEditView>, back: Seq<TextEditView>)
    requires
        orderly(text, edits),
        takes_back(text, edits, back),
        text_width(edited(text, edits)) <= u32::MAX,
        orderly(edited(text, edits), back),
    ensures
        edited(edited(text, edits), back) == text,
{
    lemma_end_is_clear(text, edits);
    lemma_end_is_clear(edited(text, edits), back);
    lemma_prefix_undone(text, edits, back, text.len() as int);
    assert(text.take(text.len() as int) =~= text);
}

/// Edits that are taken back leave a position where it was.
proof fn lemma_position_undone(
    text: Seq<char>,
    edits: Seq<TextEditView>,
    back: Seq<TextEditView>,
    position: Position,
    at: int,
)
    requires
        orderly(text, edits),
        takes_back(text, edits, back),
        text_width(edited(text, edits)) <= u32::MAX,
        orderly(edited(text, edits), back),
        text_width(text) <= u32::MAX,
        stands_at(text, position, at),
        clear(text, edits, at),
    ensures
        moved(moved(position, edits), back) == position,
{
    lemma_text_undone(text, edits, back);
    lemma_moved(text, edits, position, at);
    lemma_clear_back(text, edits, back, at);
    lemma_prefix_undone(text, edits, back, at);
    lemma_moved(
        edited(text, edits),
        back,
        moved(position, edits),
        edited_prefix(text, edits, at as nat).len() as int,
    );
}

/// A file has a place of a name exactly where it has a visible symbol.
proof fn lemma_place_has_symbol(
    index: Index,
    uri: Seq<char>,
    name: Seq<char>,
    new_name: Seq<char>,
    file: Seq<char>,
) -> (r: int)
    requires
        has_place_in(index.name_places(uri, name), file),
    ensures
        0 <= r < index.symbols().len(),
        index.symbols()[r].is_visible(index.files, uri, name),
        index.symbols()[r].uri == file,
{
    let all = index.name_places(uri, name);
    let inside = |p: LocationView| p.uri == file;
    let k = choose|k: int| 0 <= k < all.len() && (#[trigger] all[k]).uri == file;
    all.lemma_filter_contains(inside, k);
    lemma_edit_source(index, uri, name, new_name, file, 0)
}

/// A symbol is what was renamed exactly where it now has the new name, if
/// nothing had that name before.
proof fn lemma_same_visible(
    index: Index,
    uri: Seq<char>,
    name: Seq<char>,
    new_name: Seq<char>,
    k: int,
)
    requires
        index.is_sound(),
        index.moves_apart(uri, name, new_name),
        !name.contains('\n'),
        0 <= k < index.symbols().len(),
        index.name_places(uri, new_name).len() == 0,
    ensures
        ({
            let once = index.renamed(uri, name, new_name);
            once.symbols()[k].is_visible(once.files, uri, new_name)
                == index.symbols()[k].is_visible(index.files, uri, name)
        }),
{
    let once = index.renamed(uri, name, new_name);
    let symbol = index.symbols()[k];
    lemma_renamed_symbol(index, uri, name, new_name, k);
    assert(once.files.links == index.files.links);
    if symbol.is_visible(index.files, uri, new_name) {
        let j = lemma_symbol_is_edited(index, uri, new_name, name, k);
        let all = index.name_places(uri, new_name);
        assert(has_place_in(all, symbol.uri));
    }
}

/// The edits that put the old name back take back those that put the new one.
proof fn lemma_rename_takes_back(
    index: Index,
    uri: Seq<char>,
    name: Seq<char>,
    new_name: Seq<char>,
    file: Seq<char>,
)
    requires
        index.is_sound(),
        index.moves_apart(uri, name, new_name),
        !name.contains('\n'),
        index.name_places(uri, new_name).len() == 0,
        index.renamed(uri, name, new_name).is_sound(),
    ensures
        ({
            let once = index.renamed(uri, name, new_name);
            takes_back(
                index.files.texts[file],
                edits_in(index.name_places(uri, name), file, new_name),
                edits_in(once.name_places(uri, new_name), file, name),
            )
        }),
{
    let once = index.renamed(uri, name, new_name);
    let text = index.files.texts[file];
    let edits = edits_in(index.name_places(uri, name), file, new_name);
    let back = edits_in(once.name_places(uri, new_name), file, name);
    assert forall|k: int| 0 <= k < edits.len() implies #[trigger] is_put_back(
        text,
        edits,
        k,
        back,
    ) by {
        let at = lemma_edit_source(index, uri, name, new_name, file, k);
        let symbol = index.symbols()[at];
        assert(reads(text, symbol.range, name));
        lemma_renamed_symbol(index, uri, name, new_name, at);
        lemma_same_visible(index, uri, name, new_name, at);
        let i = lemma_symbol_is_edited(index, uri, name, new_name, at);
        let j = lemma_symbol_is_edited(once, uri, new_name, name, at);
        assert(puts_back(text, edits, k, back[j]));
    }
    assert forall|j: int| 0 <= j < back.len() implies #[trigger] was_replaced(
        text,
        edits,
        back[j],
    ) by {
        let at = lemma_edit_source(once, uri, new_name, name, file, j);
        assert(once.symbols().len() == index.symbols().len());
        let symbol = index.symbols()[at];
        lemma_renamed_symbol(index, uri, name, new_name, at);
        lemma_same_visible(index, uri, name, new_name, at);
        assert(reads(text, symbol.range, name));
        let k = lemma_symbol_is_edited(index, uri, name, new_name, at);
        assert(puts_back(text, edits, k, back[j]));
    }
}

/// What is in front of something that is not replaced is still in front of it
/// once edits were made that put something everywhere.
proof fn lemma_strictly_in_front(
    text: Seq<char>,
    edits: Seq<TextEditView>,
    from: int,
    to: int,
)
    requires
        orderly(text, edits),
        forall|k: int| 0 <= k < edits.len() ==> (#[trigger] edits[k]).new_text.len() > 0,
        0 <= from < to <= text.len(),
        clear(text, edits, from),
        clear(text, edits, to),
    ensures
        edited_prefix(text, edits, from as nat).len() < edited_prefix(
            text,
            edits,
            to as nat,
        ).len(),
{
    if removed_at(text, edits, from) {
        let k = choose|k: int|
            0 <= k < edits.len() && offset_of(text, (#[trigger] edits[k]).range.start) <= from
                < offset_of(text, edits[k].range.end);
        let end = offset_of(text, edits[k].range.end);
        assert(within_line(text, edits[k]));
        lemma_replaced(text, edits, k, end);
        lemma_prefix_of(text, edits, end as nat, to as nat);
    } else {
        lemma_stays(text, edits, from + 1);
        lemma_prefix_of(text, edits, (from + 1) as nat, to as nat);
    }
}

/// A position that is not in front of another on its line is not moved in
/// front of it.
proof fn lemma_not_moved_in_front(
    text: Seq<char>,
    edits: Seq<TextEditView>,
    a: Position,
    b: Position,
)
    requires
        orderly(text, edits),
        forall|k: int| 0 <= k < edits.len() ==> (#[trigger] edits[k]).new_text.len() > 0,
        text_width(edited(text, edits)) <= u32::MAX,
        stands_at(text, a, offset_of(text, a)),
        stands_at(text, b, offset_of(text, b)),
        clear(text, edits, offset_of(text, a)),
        clear(text, edits, offset_of(text, b)),
        a.line == b.line,
        moved(a, edits).character <= moved(b, edits).character,
    ensures
        a.character <= b.character,
{
    let from = offset_of(text, b);
    let to = offset_of(text, a);
    if a.character > b.character {
        if to <= from {
            lemma_one_line(text, to, from);
        }
        let all = edited(text, edits);
        let first = edited_prefix(text, edits, from as nat).len() as int;
        let second = edited_prefix(text, edits, to as nat).len() as int;
        lemma_strictly_in_front(text, edits, from, to);
        lemma_moved(text, edits, b, from);
        lemma_moved(text, edits, a, to);
        lemma_one_line(all, first, second);
    }
}

/// What is not in front of a range on its line is not moved in front of it.
proof fn lemma_not_moved_before(
    index: Index,
    uri: Seq<char>,
    name: Seq<char>,
    new_name: Seq<char>,
    i: int,
    j: int,
)
    requires
        index.is_sound(),
        index.lies_apart(),
        name.len() > 0,
        new_name.len() > 0,
        !name.contains('\n'),
        !new_name.contains('\n'),
        index.renamed(uri, name, new_name).is_countable(),
        0 <= i < index.symbols().len(),
        0 <= j < index.symbols().len(),
        index.symbols()[i].uri == index.symbols()[j].uri,
        has_place_in(index.name_places(uri, name), index.symbols()[i].uri),
        ({
            let edits = edits_in(index.name_places(uri, name), index.symbols()[i].uri, new_name);
            in_front(
                moved_range(index.symbols()[i].range, edits),
                moved_range(index.symbols()[j].range, edits),
            )
        }),
    ensures
        in_front(index.symbols()[i].range, index.symbols()[j].range),
{
    let a = index.symbols()[i];
    let b = index.symbols()[j];
    let text = index.files.texts[a.uri];
    let edits = edits_in(index.name_places(uri, name), a.uri, new_name);
    assert(reads(text, a.range, a.name));
    assert(reads(text, b.range, b.name));
    lemma_rename_is_orderly(index, uri, name, new_name, a.uri);
    lemma_symbol_is_clear(index, uri, name, new_name, i);
    lemma_symbol_is_clear(index, uri, name, new_name, j);
    assert forall|k: int| 0 <= k < edits.len() implies (#[trigger] edits[k]).new_text.len()
        > 0 by {
        let at = lemma_edit_source(index, uri, name, new_name, a.uri, k);
    }
    let once = index.renamed(uri, name, new_name);
    assert(once.files.texts.contains_key(a.uri));
    assert(once.files.texts[a.uri] == edited(text, edits));
    let moved_a = TextEditView { range: moved_range(a.range, edits), new_text: Seq::empty() };
    if ends_before(moved_a, moved(b.range.start, edits)) {
        lemma_not_moved_in_front(text, edits, a.range.end, b.range.start);
    } else {
        lemma_not_moved_in_front(text, edits, a.range.end, b.range.end);
    }
}

/// Labels and references that are not mixed are not mixed by a change of a
/// name.
proof fn lemma_stays_unmixed(
    index: Index,
    uri: Seq<char>,
    name: Seq<char>,
    new_name: Seq<char>,
)
    requires
        index.is_sound(),
        index.lies_apart(),
        index.is_unmixed(uri, name),
        index.name_places(uri, new_name).len() == 0,
        name.len() > 0,
        new_name.len() > 0,
        !name.contains('\n'),
        !new_name.contains('\n'),
        index.renamed(uri, name, new_name).is_countable(),
    ensures
        index.renamed(uri, name, new_name).is_unmixed(uri, new_name),
{
    let once = index.renamed(uri, name, new_name);
    let count = index.labels.len() as int;
    assert(once.files.links == index.files.links);
    assert(once.labels.len() == count);
    assert forall|i: int, j: int|
        0 <= i < once.labels.len() && 0 <= j < once.references.len() && (
        #[trigger] once.labels[i]).uri == (#[trigger] once.references[j]).uri
            && once.files.connects(uri, once.labels[i].uri) implies {
        &&& once.labels[i].name == new_name ==> !in_front(
            once.labels[i].range,
            once.references[j].range,
        )
        &&& once.references[j].name == new_name ==> !in_front(
            once.references[j].range,
            once.labels[i].range,
        )
    } by {
        let at = count + j;
        let label = index.symbols()[i];
        let reference = index.symbols()[at];
        assert(once.labels[i] == once.symbols()[i]);
        assert(once.references[j] == once.symbols()[at]);
        lemma_renamed_symbol(index, uri, name, new_name, i);
        lemma_renamed_symbol(index, uri, name, new_name, at);
        lemma_same_visible(index, uri, name, new_name, i);
        lemma_same_visible(index, uri, name, new_name, at);
        assert(index.labels[i] == label);
        assert(index.references[j] == reference);
        assert(index.labels[i].uri == index.references[j].uri);
        if once.labels[i].name == new_name && in_front(
            once.labels[i].range,
            once.references[j].range,
        ) {
            let n = lemma_symbol_is_edited(index, uri, name, new_name, i);
            lemma_not_moved_before(index, uri, name, new_name, i, at);
        }
        if once.references[j].name == new_name && in_front(
            once.references[j].range,
            once.labels[i].range,
        ) {
            let n = lemma_symbol_is_edited(index, uri, name, new_name, at);
            lemma_not_moved_before(index, uri, name, new_name, at, i);
        }
    }
}

/// A change of a name is taken back by changing the new name to the old one,
/// where nothing had the new name before and labels and references do not
/// move each other: the texts, the labels, the
/// references and the connections are what they were.
pub proof fn lemma_rename_undone(
    index: Index,
    uri: Seq<char>,
    name: Seq<char>,
    new_name: Seq<char>,
)
    requires
        index.is_sound(),
        index.lies_apart(),
        index.moves_apart(uri, name, new_name),
        index.is_countable(),
        index.renamed(uri, name, new_name).is_countable(),
        index.name_places(uri, new_name).len() == 0,
        name.len() > 0,
        new_name.len() > 0,
        !name.contains('\n'),
        !new_name.contains('\n'),
    ensures
        ({
            let twice = index.renamed(uri, name, new_name).renamed(uri, new_name, name);
            &&& twice.files == index.files
            &&& twice.labels == index.labels
            &&& twice.references == index.references
        }),
{
    let once = index.renamed(uri, name, new_name);
    let twice = once.renamed(uri, new_name, name);
    let all = index.name_places(uri, name);
    let again = once.name_places(uri, new_name);
    lemma_rename_keeps_sound(index, uri, name, new_name);
    if text_width(name) != text_width(new_name) {
        lemma_stays_unmixed(index, uri, name, new_name);
    }
    assert(once.symbols().len() == index.symbols().len());
    assert(twice.symbols().len() == index.symbols().len());
    assert forall|file: Seq<char>| #[trigger] has_place_in(all, file) == has_place_in(
        again,
        file,
    ) by {
        if has_place_in(all, file) {
            let k = lemma_place_has_symbol(index, uri, name, new_name, file);
            lemma_renamed_symbol(index, uri, name, new_name, k);
            lemma_same_visible(index, uri, name, new_name, k);
            let i = lemma_symbol_is_edited(once, uri, new_name, name, k);
        }
        if has_place_in(again, file) {
            let k = lemma_place_has_symbol(once, uri, new_name, name, file);
            lemma_renamed_symbol(index, uri, name, new_name, k);
            lemma_same_visible(index, uri, name, new_name, k);
            let i = lemma_symbol_is_edited(index, uri, name, new_name, k);
        }
    }
    assert forall|file: Seq<char>| #[trigger] index.files.texts.contains_key(file) implies
        twice.files.texts[file] == index.files.texts[file] by {
        if has_place_in(all, file) {
            lemma_file_undone(index, uri, name, new_name, file);
        } else {
            assert(!has_place_in(again, file));
        }
    }
    assert(twice.files.texts =~= index.files.texts);
    assert forall|k: int| 0 <= k < index.symbols().len() implies #[trigger] twice.symbols()[k]
        == index.symbols()[k] by {
        let symbol = index.symbols()[k];
        let text = index.files.texts[symbol.uri];
        lemma_renamed_symbol(index, uri, name, new_name, k);
        lemma_renamed_symbol(once, uri, new_name, name, k);
        lemma_same_visible(index, uri, name, new_name, k);
        assert(reads(text, symbol.range, symbol.name));
        if has_place_in(all, symbol.uri) {
            let edits = edits_in(all, symbol.uri, new_name);
            let back = edits_in(again, symbol.uri, name);
            assert(index.files.texts.contains_key(symbol.uri));
            lemma_file_undone(index, uri, name, new_name, symbol.uri);
            lemma_symbol_is_clear(index, uri, name, new_name, k);
            lemma_position_undone(
                text,
                edits,
                back,
                symbol.range.start,
                offset_of(text, symbol.range.start),
            );
            lemma_position_undone(
                text,
                edits,
                back,
                symbol.range.end,
                offset_of(text, symbol.range.end),
            );
        } else {
            assert(!has_place_in(again, symbol.uri));
        }
    }
    assert(twice.labels =~= index.labels) by {
        assert forall|k: int| 0 <= k < index.labels.len() implies #[trigger] twice.labels[k]
            == index.labels[k] by {
            assert(twice.symbols()[k] == index.symbols()[k]);
        }
    }
    assert(twice.references =~= index.references) by {
        assert forall|k: int| 0 <= k < index.references.len() implies #[trigger] twice.references[k]
            == index.references[k] by {
            let at = index.labels.len() + k;
            assert(twice.symbols()[at] == index.symbols()[at]);
        }
    }
}

/// What holds of a file in which a name was changed and changed back.
proof fn lemma_file_undone(
    index: Index,
    uri: Seq<char>,
    name: Seq<char>,
    new_name: Seq<char>,
    file: Seq<char>,
)
    requires
        index.is_sound(),
        index.lies_apart(),
        index.moves_apart(uri, name, new_name),
        index.renamed(uri, name, new_name).is_sound(),
        index.renamed(uri, name, new_name).lies_apart(),
        index.renamed(uri, name, new_name).is_countable(),
        index.name_places(uri, new_name).len() == 0,
        name.len() > 0,
        new_name.len() > 0,
        !name.contains('\n'),
        !new_name.contains('\n'),
        index.files.texts.contains_key(file),
        has_place_in(index.name_places(uri, name), file),
    ensures
        ({
            let once = index.renamed(uri, name, new_name);
            let text = index.files.texts[file];
            let edits = edits_in(index.name_places(uri, name), file, new_name);
            let back = edits_in(once.name_places(uri, new_name), file, name);
            &&& orderly(text, edits)
            &&& takes_back(text, edits, back)
            &&& once.files.texts[file] == edited(text, edits)
            &&& text_width(edited(text, edits)) <= u32::MAX
            &&& orderly(edited(text, edits), back)
            &&& edited(edited(text, edits), back) == text
        }),
{
    let once = index.renamed(uri, name, new_name);
    let text = index.files.texts[file];
    let edits = edits_in(index.name_places(uri, name), file, new_name);
    let back = edits_in(once.name_places(uri, new_name), file, name);
    assert(once.files.texts.contains_key(file));
    lemma_rename_is_orderly(index, uri, name, new_name, file);
    lemma_rename_is_orderly(once, uri, new_name, name, file);
    lemma_rename_takes_back(index, uri, name, new_name, file);
    lemma_text_undone(text, edits, back);
}

} // verus!
