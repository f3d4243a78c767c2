//! Where the characters of a text stand, and where edits take them.

use crate::edit::{
    column_shift, edited, edited_at, edited_prefix, ends_before, inserted_at, moved,
    moved_range, offset_of, removed_at, skip_columns, skip_lines, text_width, utf8_width,
};
use crate::types::{Position, Range, TextEditView};
use vstd::prelude::*;

verus! {

/// The number of line ends in front of the character at `at`.
pub open spec fn line_of(text: Seq<char>, at: int) -> nat
    decreases at,
{
    if at <= 0 {
        0
    } else if text[at - 1] == '\n' {
        line_of(text, at - 1) + 1
    } else {
        line_of(text, at - 1)
    }
}

/// The number of bytes between the start of its line and the character at
/// `at`.
pub open spec fn column_of(text: Seq<char>, at: int) -> nat
    decreases at,
{
    if at <= 0 || text[at - 1] == '\n' {
        0
    } else {
        column_of(text, at - 1) + utf8_width(text[at - 1])
    }
}

/// Whether `position` is that of the character at `at`, or of the end of the
/// text.
pub open spec fn stands_at(text: Seq<char>, position: Position, at: int) -> bool {
    &&& 0 <= at <= text.len()
    &&& line_of(text, at) == position.line
    &&& column_of(text, at) == position.character
}

/// Whether `name` is what stands at `range` of `text`.
pub open spec fn reads(text: Seq<char>, range: Range, name: Seq<char>) -> bool {
    let from = offset_of(text, range.start);
    let to = offset_of(text, range.end);
    &&& stands_at(text, range.start, from)
    &&& stands_at(text, range.end, to)
    &&& from <= to
    &&& text.subrange(from, to) == name
}

/// Whether no character of `text` is in both ranges.
pub open spec fn apart(text: Seq<char>, a: Range, b: Range) -> bool {
    ||| offset_of(text, a.end) <= offset_of(text, b.start)
    ||| offset_of(text, b.end) <= offset_of(text, a.start)
}

/// Whether `edit` puts something on one line in place of something on one
/// line of `text`.
pub open spec fn within_line(text: Seq<char>, edit: TextEditView) -> bool {
    let from = offset_of(text, edit.range.start);
    let to = offset_of(text, edit.range.end);
    &&& stands_at(text, edit.range.start, from)
    &&& stands_at(text, edit.range.end, to)
    &&& from < to
    &&& edit.range.start.line == edit.range.end.line
    &&& !edit.new_text.contains('\n')
}

/// Whether `edits` replace parts of single lines of `text`, no two of which
/// overlap.
pub open spec fn orderly(text: Seq<char>, edits: Seq<TextEditView>) -> bool {
    &&& forall|k: int| 0 <= k < edits.len() ==> within_line(text, #[trigger] edits[k])
    &&& forall|i: int, j: int|
        0 <= i < edits.len() && 0 <= j < edits.len() && i != j ==> apart(
            text,
            (#[trigger] edits[i]).range,
            (#[trigger] edits[j]).range,
        )
}

/// Whether `at` is in no range that one of `edits` replaces. The ends of a
/// range are not in it.
pub open spec fn clear(text: Seq<char>, edits: Seq<TextEditView>, at: int) -> bool {
    forall|k: int|
        0 <= k < edits.len() ==> at <= offset_of(text, (#[trigger] edits[k]).range.start)
            || offset_of(text, edits[k].range.end) <= at
}

/// Whether none of `edits` replaces a character of `range`.
pub open spec fn untouched(text: Seq<char>, edits: Seq<TextEditView>, range: Range) -> bool {
    forall|k: int| 0 <= k < edits.len() ==> apart(text, (#[trigger] edits[k]).range, range)
}

pub(crate) proof fn lemma_line_mono(text: Seq<char>, from: int, to: int)
    requires
        from <= to,
    ensures
        line_of(text, from) <= line_of(text, to),
    decreases to - from,
{
    if from < to {
        lemma_line_mono(text, from, to - 1);
    }
}

/// Where the line number stays the same there is no line end, and the column
/// grows by at least one for each character.
pub(crate) proof fn lemma_one_line(text: Seq<char>, from: int, to: int)
    requires
        0 <= from <= to,
        line_of(text, from) == line_of(text, to),
    ensures
        forall|i: int| from <= i < to ==> (#[trigger] text[i]) != '\n',
        column_of(text, from) + (to - from) <= column_of(text, to),
    decreases to - from,
{
    if from < to {
        lemma_line_mono(text, from, to - 1);
        lemma_one_line(text, from, to - 1);
    }
}

/// The start of the line of the character at `at`.
spec fn line_start(text: Seq<char>, at: int) -> int
    decreases at,
{
    if at <= 0 {
        0
    } else if text[at - 1] == '\n' {
        at
    } else {
        line_start(text, at - 1)
    }
}

proof fn lemma_line_start(text: Seq<char>, at: int)
    requires
        0 <= at,
    ensures
        0 <= line_start(text, at) <= at,
        line_of(text, line_start(text, at)) == line_of(text, at),
        column_of(text, line_start(text, at)) == 0,
        line_start(text, at) > 0 ==> text[line_start(text, at) - 1] == '\n',
    decreases at,
{
    if at > 0 && text[at - 1] != '\n' {
        lemma_line_start(text, at - 1);
    }
}

proof fn lemma_skip_lines(text: Seq<char>, from: int, start: int)
    requires
        0 <= from <= start <= text.len(),
        start > 0 ==> text[start - 1] == '\n',
    ensures
        skip_lines(text, from, (line_of(text, start) - line_of(text, from)) as nat) == start,
    decreases start - from,
{
    if from < start {
        lemma_line_mono(text, from + 1, start);
        lemma_line_mono(text, from, start - 1);
        lemma_skip_lines(text, from + 1, start);
    }
}

proof fn lemma_skip_columns(text: Seq<char>, from: int, at: int)
    requires
        0 <= from <= at <= text.len(),
        line_of(text, from) == line_of(text, at),
    ensures
        skip_columns(text, from, (column_of(text, at) - column_of(text, from)) as nat) == at,
    decreases at - from,
{
    lemma_one_line(text, from, at);
    if from < at {
        lemma_line_mono(text, from, from + 1);
        lemma_line_mono(text, from + 1, at);
        lemma_one_line(text, from + 1, at);
        lemma_skip_columns(text, from + 1, at);
    }
}

/// The offset of the position of a character is the index of that character.
pub proof fn lemma_offset(text: Seq<char>, position: Position, at: int)
    requires
        stands_at(text, position, at),
    ensures
        offset_of(text, position) == at,
{
    lemma_line_start(text, at);
    let start = line_start(text, at);
    lemma_skip_lines(text, 0, start);
    lemma_skip_columns(text, start, at);
}

/// Texts that start alike have the same lines and columns there.
proof fn lemma_same_start(a: Seq<char>, b: Seq<char>, at: int)
    requires
        0 <= at <= a.len(),
        at <= b.len(),
        a.take(at) == b.take(at),
    ensures
        line_of(a, at) == line_of(b, at),
        column_of(a, at) == column_of(b, at),
    decreases at,
{
    if at > 0 {
        assert(a.take(at - 1) =~= a.take(at).take(at - 1));
        assert(b.take(at - 1) =~= b.take(at).take(at - 1));
        assert(a[at - 1] == a.take(at)[at - 1]);
        assert(b[at - 1] == b.take(at)[at - 1]);
        lemma_same_start(a, b, at - 1);
    }
}

/// What has no line end moves the end of a text along its line.
proof fn lemma_lengthened(text: Seq<char>, more: Seq<char>)
    requires
        !more.contains('\n'),
    ensures
        line_of(text + more, (text + more).len() as int) == line_of(text, text.len() as int),
        column_of(text + more, (text + more).len() as int) == column_of(text, text.len() as int)
            + text_width(more),
    decreases more.len(),
{
    let whole = text + more;
    if more.len() == 0 {
        assert(whole =~= text);
    } else {
        let less = more.drop_last();
        assert forall|i: int| 0 <= i < less.len() implies less[i] != '\n' by {
            assert(more[i] == less[i]);
        }
        lemma_lengthened(text, less);
        assert(whole.take(whole.len() - 1) =~= (text + less).take(whole.len() - 1));
        lemma_same_start(whole, text + less, whole.len() - 1);
        assert(more.contains(more.last()));
    }
}

proof fn lemma_width_add(a: Seq<char>, b: Seq<char>)
    ensures
        text_width(a + b) == text_width(a) + text_width(b),
    decreases b.len(),
{
    if b.len() == 0 {
        assert(a + b =~= a);
    } else {
        assert((a + b).drop_last() =~= a + b.drop_last());
        lemma_width_add(a, b.drop_last());
    }
}

proof fn lemma_column_bound(text: Seq<char>, at: int)
    requires
        0 <= at <= text.len(),
    ensures
        column_of(text, at) <= text_width(text.take(at)),
        line_of(text, at) <= text_width(text.take(at)),
    decreases at,
{
    if at > 0 {
        assert(text.take(at).drop_last() =~= text.take(at - 1));
        lemma_column_bound(text, at - 1);
    }
}

/// No line or column of a text is larger than the text is wide.
pub(crate) proof fn lemma_place_bound(text: Seq<char>, at: int)
    requires
        0 <= at <= text.len(),
    ensures
        column_of(text, at) <= text_width(text),
        line_of(text, at) <= text_width(text),
{
    lemma_column_bound(text, at);
    assert(text =~= text.take(at) + text.skip(at));
    lemma_width_add(text.take(at), text.skip(at));
}

/// What becomes of more of a text starts with what becomes of less of it.
pub(crate) proof fn lemma_prefix_of(text: Seq<char>, edits: Seq<TextEditView>, n: nat, m: nat)
    requires
        n <= m,
    ensures
        ({
            let less = edited_prefix(text, edits, n);
            let more = edited_prefix(text, edits, m);
            &&& less.len() <= more.len()
            &&& more.take(less.len() as int) == less
        }),
    decreases m - n,
{
    let less = edited_prefix(text, edits, n);
    let more = edited_prefix(text, edits, m);
    if n == m {
        assert(more.take(less.len() as int) =~= less);
    } else {
        lemma_prefix_of(text, edits, n, (m - 1) as nat);
        let almost = edited_prefix(text, edits, (m - 1) as nat);
        assert(more == almost + edited_at(text, edits, m - 1));
        assert(more.take(less.len() as int) =~= almost.take(less.len() as int));
    }
}

/// Nothing is put where no edit starts.
pub(crate) proof fn lemma_nothing_inserted(text: Seq<char>, edits: Seq<TextEditView>, at: int)
    requires
        forall|k: int|
            0 <= k < edits.len() ==> offset_of(text, (#[trigger] edits[k]).range.start) != at,
    ensures
        inserted_at(text, edits, at) == Seq::<char>::empty(),
    decreases edits.len(),
{
    if edits.len() > 0 {
        assert(edits[edits.len() - 1] == edits.last());
        assert forall|k: int| 0 <= k < edits.drop_last().len() implies offset_of(
            text,
            (#[trigger] edits.drop_last()[k]).range.start,
        ) != at by {
            assert(edits.drop_last()[k] == edits[k]);
        }
        lemma_nothing_inserted(text, edits.drop_last(), at);
    }
}

/// Where one edit starts, its text is put.
proof fn lemma_one_inserted(text: Seq<char>, edits: Seq<TextEditView>, k: int)
    requires
        0 <= k < edits.len(),
        forall|j: int|
            0 <= j < edits.len() && j != k ==> offset_of(text, (#[trigger] edits[j]).range.start)
                != offset_of(text, edits[k].range.start),
    ensures
        inserted_at(text, edits, offset_of(text, edits[k].range.start)) == edits[k].new_text,
    decreases edits.len(),
{
    let at = offset_of(text, edits[k].range.start);
    let rest = edits.drop_last();
    assert forall|j: int| 0 <= j < rest.len() && j != k implies offset_of(
        text,
        (#[trigger] rest[j]).range.start,
    ) != at by {
        assert(rest[j] == edits[j]);
    }
    if k == edits.len() - 1 {
        lemma_nothing_inserted(text, rest, at);
        assert(inserted_at(text, edits, at) =~= edits[k].new_text);
    } else {
        assert(rest[k] == edits[k]);
        assert(edits[edits.len() - 1] == edits.last());
        lemma_one_inserted(text, rest, k);
    }
}

/// What an edit replaces becomes its new text.
pub(crate) proof fn lemma_replaced(text: Seq<char>, edits: Seq<TextEditView>, k: int, at: int)
    requires
        orderly(text, edits),
        0 <= k < edits.len(),
        offset_of(text, edits[k].range.start) < at <= offset_of(text, edits[k].range.end),
    ensures
        edited_prefix(text, edits, at as nat) == edited_prefix(
            text,
            edits,
            offset_of(text, edits[k].range.start) as nat,
        ) + edits[k].new_text,
    decreases at,
{
    let from = offset_of(text, edits[k].range.start);
    assert(within_line(text, edits[k]));
    assert forall|j: int| 0 <= j < edits.len() && j != k implies offset_of(
        text,
        (#[trigger] edits[j]).range.start,
    ) < from || offset_of(text, edits[j].range.start) >= offset_of(
        text,
        edits[k].range.end,
    ) by {
        assert(within_line(text, edits[j]));
        assert(apart(text, edits[j].range, edits[k].range));
    }
    assert(removed_at(text, edits, at - 1));
    if at == from + 1 {
        lemma_one_inserted(text, edits, k);
    } else {
        assert forall|j: int| 0 <= j < edits.len() implies offset_of(
            text,
            (#[trigger] edits[j]).range.start,
        ) != at - 1 by {
            if j != k {
            }
        }
        lemma_nothing_inserted(text, edits, at - 1);
        lemma_replaced(text, edits, k, at - 1);
    }
    assert(edited_prefix(text, edits, at as nat) =~= edited_prefix(text, edits, from as nat)
        + edits[k].new_text);
}

/// What no edit replaces stays.
pub(crate) proof fn lemma_stays(text: Seq<char>, edits: Seq<TextEditView>, at: int)
    requires
        orderly(text, edits),
        0 < at <= text.len(),
        !removed_at(text, edits, at - 1),
    ensures
        edited_prefix(text, edits, at as nat) == edited_prefix(
            text,
            edits,
            (at - 1) as nat,
        ).push(text[at - 1]),
{
    assert forall|j: int| 0 <= j < edits.len() implies offset_of(
        text,
        (#[trigger] edits[j]).range.start,
    ) != at - 1 by {
        assert(within_line(text, edits[j]));
    }
    lemma_nothing_inserted(text, edits, at - 1);
    assert(edited_prefix(text, edits, at as nat) =~= edited_prefix(
        text,
        edits,
        (at - 1) as nat,
    ).push(text[at - 1]));
}

/// Whether `edit` moves what follows it on the line of the character at `at`.
spec fn counts(text: Seq<char>, edit: TextEditView, at: int) -> bool {
    let to = offset_of(text, edit.range.end);
    to <= at && line_of(text, to) == line_of(text, at)
}

/// By how many columns `edit` moves what follows it on its line.
spec fn growth(text: Seq<char>, edit: TextEditView) -> int {
    text_width(edit.new_text) + column_of(text, offset_of(text, edit.range.start)) - column_of(
        text,
        offset_of(text, edit.range.end),
    )
}

/// By how many columns `edits` move the character at `at`.
spec fn shift(text: Seq<char>, edits: Seq<TextEditView>, at: int) -> int
    decreases edits.len(),
{
    if edits.len() == 0 {
        0
    } else {
        shift(text, edits.drop_last(), at) + if counts(text, edits.last(), at) {
            growth(text, edits.last())
        } else {
            0
        }
    }
}

proof fn lemma_same_shift(text: Seq<char>, edits: Seq<TextEditView>, a: int, b: int)
    requires
        forall|k: int|
            0 <= k < edits.len() ==> counts(text, #[trigger] edits[k], a) == counts(
                text,
                edits[k],
                b,
            ),
    ensures
        shift(text, edits, a) == shift(text, edits, b),
    decreases edits.len(),
{
    if edits.len() > 0 {
        let rest = edits.drop_last();
        assert forall|k: int| 0 <= k < rest.len() implies counts(text, #[trigger] rest[k], a)
            == counts(text, rest[k], b) by {
            assert(rest[k] == edits[k]);
        }
        lemma_same_shift(text, rest, a, b);
        assert(edits[edits.len() - 1] == edits.last());
    }
}

proof fn lemma_no_shift(text: Seq<char>, edits: Seq<TextEditView>, at: int)
    requires
        forall|k: int| 0 <= k < edits.len() ==> !counts(text, #[trigger] edits[k], at),
    ensures
        shift(text, edits, at) == 0,
    decreases edits.len(),
{
    if edits.len() > 0 {
        let rest = edits.drop_last();
        assert forall|k: int| 0 <= k < rest.len() implies !counts(
            text,
            #[trigger] rest[k],
            at,
        ) by {
            assert(rest[k] == edits[k]);
        }
        lemma_no_shift(text, rest, at);
        assert(edits[edits.len() - 1] == edits.last());
    }
}

proof fn lemma_one_shift(text: Seq<char>, edits: Seq<TextEditView>, a: int, b: int, k: int)
    requires
        0 <= k < edits.len(),
        !counts(text, edits[k], a),
        counts(text, edits[k], b),
        forall|j: int|
            0 <= j < edits.len() && j != k ==> counts(text, #[trigger] edits[j], a) == counts(
                text,
                edits[j],
                b,
            ),
    ensures
        shift(text, edits, b) == shift(text, edits, a) + growth(text, edits[k]),
    decreases edits.len(),
{
    let rest = edits.drop_last();
    assert forall|j: int| 0 <= j < rest.len() && j != k implies counts(
        text,
        #[trigger] rest[j],
        a,
    ) == counts(text, rest[j], b) by {
        assert(rest[j] == edits[j]);
    }
    if k == edits.len() - 1 {
        lemma_same_shift(text, rest, a, b);
    } else {
        assert(rest[k] == edits[k]);
        assert(edits[edits.len() - 1] == edits.last());
        lemma_one_shift(text, rest, a, b, k);
    }
}

/// What stands in front of a character that no edit replaces ends, once
/// edited, on the line of that character, and as many columns further as the
/// edits move it.
proof fn lemma_end_of_prefix(text: Seq<char>, edits: Seq<TextEditView>, at: int)
    requires
        orderly(text, edits),
        0 <= at <= text.len(),
        clear(text, edits, at),
    ensures
        ({
            let before = edited_prefix(text, edits, at as nat);
            &&& line_of(before, before.len() as int) == line_of(text, at)
            &&& column_of(before, before.len() as int) == column_of(text, at) + shift(
                text,
                edits,
                at,
            )
        }),
    decreases at,
{
    let before = edited_prefix(text, edits, at as nat);
    if at == 0 {
        assert forall|k: int| 0 <= k < edits.len() implies !counts(
            text,
            #[trigger] edits[k],
            at,
        ) by {
            assert(within_line(text, edits[k]));
        }
        lemma_no_shift(text, edits, at);
    } else if removed_at(text, edits, at - 1) {
        let k = choose|k: int|
            0 <= k < edits.len() && offset_of(text, (#[trigger] edits[k]).range.start) <= at - 1
                < offset_of(text, edits[k].range.end);
        let from = offset_of(text, edits[k].range.start);
        assert(within_line(text, edits[k]));
        assert(at == offset_of(text, edits[k].range.end));
        lemma_replaced(text, edits, k, at);
        assert forall|j: int| 0 <= j < edits.len() implies from <= offset_of(
            text,
            (#[trigger] edits[j]).range.start,
        ) || offset_of(text, edits[j].range.end) <= from by {
            if j != k {
                assert(apart(text, edits[j].range, edits[k].range));
            }
        }
        lemma_end_of_prefix(text, edits, from);
        lemma_lengthened(edited_prefix(text, edits, from as nat), edits[k].new_text);
        assert forall|j: int| 0 <= j < edits.len() && j != k implies counts(
            text,
            #[trigger] edits[j],
            from,
        ) == counts(text, edits[j], at) by {
            assert(within_line(text, edits[j]));
            assert(apart(text, edits[j].range, edits[k].range));
        }
        lemma_one_shift(text, edits, from, at, k);
    } else {
        lemma_stays(text, edits, at);
        assert forall|j: int| 0 <= j < edits.len() implies at - 1 <= offset_of(
            text,
            (#[trigger] edits[j]).range.start,
        ) || offset_of(text, edits[j].range.end) <= at - 1 by {
        }
        lemma_end_of_prefix(text, edits, at - 1);
        let shorter = edited_prefix(text, edits, (at - 1) as nat);
        assert(before.take(shorter.len() as int) =~= shorter.take(shorter.len() as int));
        lemma_same_start(before, shorter, shorter.len() as int);
        if text[at - 1] == '\n' {
            assert forall|k: int| 0 <= k < edits.len() implies !counts(
                text,
                #[trigger] edits[k],
                at,
            ) by {
                assert(within_line(text, edits[k]));
                let from = offset_of(text, edits[k].range.start);
                let to = offset_of(text, edits[k].range.end);
                if counts(text, edits[k], at) {
                    if to < at {
                        lemma_line_mono(text, to, at - 1);
                    } else {
                        lemma_line_mono(text, from, at - 1);
                    }
                }
            }
            lemma_no_shift(text, edits, at);
        } else {
            assert forall|k: int| 0 <= k < edits.len() implies counts(
                text,
                #[trigger] edits[k],
                at - 1,
            ) == counts(text, edits[k], at) by {
                assert(within_line(text, edits[k]));
            }
            lemma_same_shift(text, edits, at - 1, at);
        }
    }
}

/// The columns that a position is moved by are those of the edits in front of
/// it on its line.
proof fn lemma_shift(text: Seq<char>, edits: Seq<TextEditView>, position: Position, at: int)
    requires
        forall|k: int| 0 <= k < edits.len() ==> within_line(text, #[trigger] edits[k]),
        forall|k: int|
            0 <= k < edits.len() ==> text_width((#[trigger] edits[k]).new_text) <= u32::MAX,
        stands_at(text, position, at),
    ensures
        column_shift(position, edits) == shift(text, edits, at),
    decreases edits.len(),
{
    if edits.len() > 0 {
        let edit = edits.last();
        let rest = edits.drop_last();
        assert(edit == edits[edits.len() - 1]);
        assert forall|k: int| 0 <= k < rest.len() implies within_line(
            text,
            #[trigger] rest[k],
        ) && text_width(rest[k].new_text) <= u32::MAX by {
            assert(rest[k] == edits[k]);
        }
        lemma_shift(text, rest, position, at);
        assert(within_line(text, edit));
        let to = offset_of(text, edit.range.end);
        if edit.range.end.line == position.line {
            if to <= at {
                lemma_one_line(text, to, at);
            } else {
                lemma_one_line(text, at, to);
            }
        }
        assert(ends_before(edit, position) == counts(text, edit, at));
    }
}

/// A new text is no wider than the text that it becomes part of.
proof fn lemma_new_text_width(text: Seq<char>, edits: Seq<TextEditView>, k: int)
    requires
        orderly(text, edits),
        0 <= k < edits.len(),
    ensures
        text_width(edits[k].new_text) <= text_width(edited(text, edits)),
{
    assert(within_line(text, edits[k]));
    let from = offset_of(text, edits[k].range.start);
    let to = offset_of(text, edits[k].range.end);
    lemma_replaced(text, edits, k, to);
    lemma_width_add(edited_prefix(text, edits, from as nat), edits[k].new_text);
    lemma_prefix_width(text, edits, to as nat);
}

proof fn lemma_prefix_width(text: Seq<char>, edits: Seq<TextEditView>, n: nat)
    requires
        n <= text.len() + 1,
    ensures
        text_width(edited_prefix(text, edits, n)) <= text_width(edited(text, edits)),
{
    let less = edited_prefix(text, edits, n);
    let all = edited(text, edits);
    lemma_prefix_of(text, edits, n, text.len() + 1);
    assert(all =~= all.take(less.len() as int) + all.skip(less.len() as int));
    lemma_width_add(all.take(less.len() as int), all.skip(less.len() as int));
}

/// A position that is in no replaced range is moved to where what stood in
/// front of it ends in the edited text.
pub proof fn lemma_moved(text: Seq<char>, edits: Seq<TextEditView>, position: Position, at: int)
    requires
        orderly(text, edits),
        clear(text, edits, at),
        stands_at(text, position, at),
        text_width(edited(text, edits)) <= u32::MAX,
    ensures
        stands_at(
            edited(text, edits),
            moved(position, edits),
            edited_prefix(text, edits, at as nat).len() as int,
        ),
{
    let before = edited_prefix(text, edits, at as nat);
    let all = edited(text, edits);
    let end = before.len() as int;
    lemma_end_of_prefix(text, edits, at);
    lemma_prefix_of(text, edits, at as nat, text.len() + 1);
    assert(before.take(end) =~= before);
    lemma_same_start(before, all, end);
    lemma_prefix_width(text, edits, at as nat);
    lemma_column_bound(before, end);
    assert forall|k: int| 0 <= k < edits.len() implies text_width(
        (#[trigger] edits[k]).new_text,
    ) <= u32::MAX by {
        lemma_new_text_width(text, edits, k);
    }
    lemma_shift(text, edits, position, at);
}

/// Where an edit was made, the edited text reads what it put there.
pub proof fn lemma_edit_reads(text: Seq<char>, edits: Seq<TextEditView>, k: int)
    requires
        orderly(text, edits),
        0 <= k < edits.len(),
        text_width(edited(text, edits)) <= u32::MAX,
    ensures
        reads(edited(text, edits), moved_range(edits[k].range, edits), edits[k].new_text),
{
    let range = edits[k].range;
    let from = offset_of(text, range.start);
    let to = offset_of(text, range.end);
    let all = edited(text, edits);
    assert(within_line(text, edits[k]));
    assert forall|j: int| 0 <= j < edits.len() implies (from <= offset_of(
        text,
        (#[trigger] edits[j]).range.start,
    ) || offset_of(text, edits[j].range.end) <= from) && (to <= offset_of(
        text,
        edits[j].range.start,
    ) || offset_of(text, edits[j].range.end) <= to) by {
        assert(within_line(text, edits[j]));
        if j != k {
            assert(apart(text, edits[j].range, range));
        }
    }
    lemma_moved(text, edits, range.start, from);
    lemma_moved(text, edits, range.end, to);
    let before = edited_prefix(text, edits, from as nat);
    let after = edited_prefix(text, edits, to as nat);
    lemma_replaced(text, edits, k, to);
    lemma_prefix_of(text, edits, to as nat, text.len() + 1);
    lemma_offset(all, moved(range.start, edits), before.len() as int);
    lemma_offset(all, moved(range.end, edits), after.len() as int);
    assert(all.subrange(before.len() as int, after.len() as int) =~= all.take(
        after.len() as int,
    ).subrange(before.len() as int, after.len() as int));
    assert(after.subrange(before.len() as int, after.len() as int) =~= edits[k].new_text);
}

/// What stands between two places stays between them where no edit replaces
/// any of it.
proof fn lemma_between(text: Seq<char>, edits: Seq<TextEditView>, from: int, to: int)
    requires
        orderly(text, edits),
        0 <= from <= to <= text.len(),
        forall|k: int|
            0 <= k < edits.len() ==> to <= offset_of(text, (#[trigger] edits[k]).range.start)
                || offset_of(text, edits[k].range.end) <= from,
    ensures
        edited_prefix(text, edits, to as nat) == edited_prefix(text, edits, from as nat)
            + text.subrange(from, to),
    decreases to - from,
{
    let before = edited_prefix(text, edits, from as nat);
    if from == to {
        assert(before + text.subrange(from, to) =~= before);
    } else {
        assert forall|k: int| 0 <= k < edits.len() implies to - 1 <= offset_of(
            text,
            (#[trigger] edits[k]).range.start,
        ) || offset_of(text, edits[k].range.end) <= from by {
        }
        lemma_between(text, edits, from, to - 1);
        lemma_stays(text, edits, to);
        assert(text.subrange(from, to) =~= text.subrange(from, to - 1).push(text[to - 1]));
        assert(edited_prefix(text, edits, to as nat) =~= before + text.subrange(from, to));
    }
}

/// What no edit replaces reads the same where the edits moved it.
pub proof fn lemma_untouched_reads(
    text: Seq<char>,
    edits: Seq<TextEditView>,
    range: Range,
    name: Seq<char>,
)
    requires
        orderly(text, edits),
        reads(text, range, name),
        untouched(text, edits, range),
        text_width(edited(text, edits)) <= u32::MAX,
    ensures
        reads(edited(text, edits), moved_range(range, edits), name),
{
    let from = offset_of(text, range.start);
    let to = offset_of(text, range.end);
    let all = edited(text, edits);
    assert forall|k: int| 0 <= k < edits.len() implies to <= offset_of(
        text,
        (#[trigger] edits[k]).range.start,
    ) || offset_of(text, edits[k].range.end) <= from by {
        assert(within_line(text, edits[k]));
        assert(apart(text, edits[k].range, range));
    }
    assert(clear(text, edits, from));
    assert(clear(text, edits, to));
    lemma_moved(text, edits, range.start, from);
    lemma_moved(text, edits, range.end, to);
    let before = edited_prefix(text, edits, from as nat);
    let after = edited_prefix(text, edits, to as nat);
    lemma_between(text, edits, from, to);
    lemma_prefix_of(text, edits, to as nat, text.len() + 1);
    lemma_offset(all, moved(range.start, edits), before.len() as int);
    lemma_offset(all, moved(range.end, edits), after.len() as int);
    assert(all.subrange(before.len() as int, after.len() as int) =~= all.take(
        after.len() as int,
    ).subrange(before.len() as int, after.len() as int));
    assert(after.subrange(before.len() as int, after.len() as int) =~= name);
}

proof fn lemma_skip_bounds(text: Seq<char>, from: int, lines: nat, columns: nat)
    requires
        0 <= from <= text.len(),
    ensures
        from <= skip_lines(text, from, lines) <= text.len(),
        from <= skip_columns(text, from, columns) <= text.len(),
    decreases text.len() - from,
{
    if from < text.len() {
        lemma_skip_bounds(text, from + 1, lines, columns);
        if lines > 0 {
            lemma_skip_bounds(text, from + 1, (lines - 1) as nat, columns);
        }
        if utf8_width(text[from]) <= columns {
            lemma_skip_bounds(
                text,
                from + 1,
                lines,
                (columns - utf8_width(text[from])) as nat,
            );
        }
    }
}

/// Every position has its place in a text, be it at the end.
pub proof fn lemma_offset_bounds(text: Seq<char>, position: Position)
    ensures
        0 <= offset_of(text, position) <= text.len(),
{
    let start = skip_lines(text, 0, position.line as nat);
    lemma_skip_bounds(text, 0, position.line as nat, 0);
    lemma_skip_bounds(text, start, 0, position.character as nat);
}

proof fn lemma_prefix_without_edits(text: Seq<char>, n: nat)
    requires
        n <= text.len(),
    ensures
        edited_prefix(text, Seq::empty(), n) == text.take(n as int),
    decreases n,
{
    if n > 0 {
        lemma_prefix_without_edits(text, (n - 1) as nat);
        assert(!removed_at(text, Seq::empty(), n - 1));
    }
    assert(edited_prefix(text, Seq::empty(), n) =~= text.take(n as int));
}

/// No edits leave a text as it is.
pub proof fn lemma_no_edits(text: Seq<char>)
    ensures
        edited(text, Seq::empty()) == text,
{
    lemma_prefix_without_edits(text, text.len());
    assert(edited(text, Seq::empty()) =~= text);
}

proof fn lemma_prefix_with_one_edit(text: Seq<char>, edit: TextEditView, n: nat)
    requires
        n <= text.len(),
        offset_of(text, edit.range.start) <= offset_of(text, edit.range.end),
    ensures
        ({
            let from = offset_of(text, edit.range.start);
            let to = offset_of(text, edit.range.end);
            edited_prefix(text, seq![edit], n) == if n <= from {
                text.take(n as int)
            } else if n <= to {
                text.take(from) + edit.new_text
            } else {
                text.take(from) + edit.new_text + text.subrange(to, n as int)
            }
        }),
    decreases n,
{
    let from = offset_of(text, edit.range.start);
    let to = offset_of(text, edit.range.end);
    lemma_offset_bounds(text, edit.range.start);
    lemma_offset_bounds(text, edit.range.end);
    if n > 0 {
        lemma_prefix_with_one_edit(text, edit, (n - 1) as nat);
        lemma_one_edit_at(text, edit, n - 1);
    }
    assert(edited_prefix(text, seq![edit], n) =~= if n <= from {
        text.take(n as int)
    } else if n <= to {
        text.take(from) + edit.new_text
    } else {
        text.take(from) + edit.new_text + text.subrange(to, n as int)
    });
}

proof fn lemma_one_edit_at(text: Seq<char>, edit: TextEditView, at: int)
    ensures
        removed_at(text, seq![edit], at) == (offset_of(text, edit.range.start) <= at < offset_of(
            text,
            edit.range.end,
        )),
        inserted_at(text, seq![edit], at) == if offset_of(text, edit.range.start) == at {
            edit.new_text
        } else {
            Seq::empty()
        },
{
    let edits = seq![edit];
    assert(edits[0] == edit);
    assert(edits.drop_last() =~= Seq::empty());
    assert(inserted_at(text, edits.drop_last(), at) =~= Seq::empty());
    assert(inserted_at(text, edits, at) =~= if offset_of(text, edit.range.start) == at {
        edit.new_text
    } else {
        Seq::empty()
    });
}

/// One edit puts its new text in place of what stands at its range.
pub proof fn lemma_one_edit(text: Seq<char>, edit: TextEditView)
    requires
        offset_of(text, edit.range.start) <= offset_of(text, edit.range.end),
    ensures
        edited(text, seq![edit]) == text.take(offset_of(text, edit.range.start)) + edit.new_text
            + text.skip(offset_of(text, edit.range.end)),
{
    lemma_offset_bounds(text, edit.range.start);
    lemma_offset_bounds(text, edit.range.end);
    lemma_prefix_with_one_edit(text, edit, text.len());
    lemma_one_edit_at(text, edit, text.len() as int);
    assert(edited(text, seq![edit]) =~= text.take(offset_of(text, edit.range.start))
        + edit.new_text + text.skip(offset_of(text, edit.range.end)));
}

} // verus!
