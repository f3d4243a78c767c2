//! Where positions lie in a text, and what edits make of it.

use crate::text::to_chars;
use crate::types::{Position, Range, TextEdit, TextEditView};
use vstd::prelude::*;
use vstd::string::*;

verus! {

/// The number of bytes in the UTF-8 encoding of `c`.
pub open spec fn utf8_width(c: char) -> nat {
    if c <= '\u{7f}' {
        1
    } else if c <= '\u{7ff}' {
        2
    } else if c <= '\u{ffff}' {
        3
    } else {
        4
    }
}

/// The index reached from `from` by going past `lines` line ends, or past
/// the whole text where it has fewer.
pub open spec fn skip_lines(text: Seq<char>, from: int, lines: nat) -> int
    decreases text.len() - from,
{
    if lines == 0 || from >= text.len() {
        from
    } else if text[from] == '\n' {
        skip_lines(text, from + 1, (lines - 1) as nat)
    } else {
        skip_lines(text, from + 1, lines)
    }
}

/// The index reached from `from` by going past characters of one line that
/// take up at most `columns` bytes.
pub open spec fn skip_columns(text: Seq<char>, from: int, columns: nat) -> int
    decreases text.len() - from,
{
    if from >= text.len() || text[from] == '\n' || utf8_width(text[from]) > columns {
        from
    } else {
        skip_columns(text, from + 1, (columns - utf8_width(text[from])) as nat)
    }
}

/// The index in `text` of what stands at `position`. A column past the end
/// of its line stands for the end of the line, and a line past the end of the
/// text for the end of the text.
pub open spec fn offset_of(text: Seq<char>, position: Position) -> int {
    skip_columns(
        text,
        skip_lines(text, 0, position.line as nat),
        position.character as nat,
    )
}

/// What `edits` put in front of the character at `at`: the new texts of the
/// edits that start there, in their order.
pub open spec fn inserted_at(text: Seq<char>, edits: Seq<TextEditView>, at: int) -> Seq<char>
    decreases edits.len(),
{
    if edits.len() == 0 {
        Seq::empty()
    } else {
        let before = inserted_at(text, edits.drop_last(), at);
        if offset_of(text, edits.last().range.start) == at {
            before + edits.last().new_text
        } else {
            before
        }
    }
}

/// Whether one of `edits` takes away the character at `at`.
pub open spec fn removed_at(text: Seq<char>, edits: Seq<TextEditView>, at: int) -> bool {
    exists|k: int|
        0 <= k < edits.len() && offset_of(text, (#[trigger] edits[k]).range.start) <= at
            < offset_of(text, edits[k].range.end)
}

/// What `edits` make of the character at `at`: what they put in front of it,
/// then the character itself unless one of them takes it away.
pub open spec fn edited_at(text: Seq<char>, edits: Seq<TextEditView>, at: int) -> Seq<char> {
    inserted_at(text, edits, at) + if at < text.len() && !removed_at(text, edits, at) {
        seq![text[at]]
    } else {
        Seq::empty()
    }
}

/// What `edits` make of the first `n` characters of `text`.
pub open spec fn edited_prefix(text: Seq<char>, edits: Seq<TextEditView>, n: nat) -> Seq<char>
    decreases n,
{
    if n == 0 {
        Seq::empty()
    } else {
        edited_prefix(text, edits, (n - 1) as nat) + edited_at(text, edits, n - 1)
    }
}

/// What `edits` make of `text`. Every range is one of `text` itself, whatever
/// the other edits do.
pub open spec fn edited(text: Seq<char>, edits: Seq<TextEditView>) -> Seq<char> {
    edited_prefix(text, edits, text.len() + 1)
}

/// The number of bytes in the UTF-8 encoding of `text`.
pub open spec fn text_width(text: Seq<char>) -> nat
    decreases text.len(),
{
    if text.len() == 0 {
        0
    } else {
        text_width(text.drop_last()) + utf8_width(text.last())
    }
}

/// `n`, or the nearest number that a column can have.
pub open spec fn as_column(n: int) -> u32 {
    if n < 0 {
        0
    } else if n > u32::MAX {
        u32::MAX
    } else {
        n as u32
    }
}

/// Whether `edit` stays within the line of `position` and ends at or before
/// it.
pub open spec fn ends_before(edit: TextEditView, position: Position) -> bool {
    &&& edit.range.start.line == position.line
    &&& edit.range.end.line == position.line
    &&& edit.range.end.character <= position.character
}

/// By how many columns `edits` move what stands at `position`: for each edit
/// in front of it on its line, the columns of the new text less those of the
/// replaced one.
pub open spec fn column_shift(position: Position, edits: Seq<TextEditView>) -> int
    decreases edits.len(),
{
    if edits.len() == 0 {
        0
    } else {
        let edit = edits.last();
        column_shift(position, edits.drop_last()) + if ends_before(edit, position) {
            as_column(text_width(edit.new_text) as int) + edit.range.start.character
                - edit.range.end.character
        } else {
            0
        }
    }
}

/// Where `edits` to single lines move what stands at `position`.
pub open spec fn moved(position: Position, edits: Seq<TextEditView>) -> Position {
    Position {
        line: position.line,
        character: as_column(position.character + column_shift(position, edits)),
    }
}

/// Where `edits` to single lines move what stands at `range`.
pub open spec fn moved_range(range: Range, edits: Seq<TextEditView>) -> Range {
    Range { start: moved(range.start, edits), end: moved(range.end, edits) }
}

fn width(c: char) -> (r: u32)
    ensures
        r == utf8_width(c),
{
    if c <= '\u{7f}' {
        1
    } else if c <= '\u{7ff}' {
        2
    } else if c <= '\u{ffff}' {
        3
    } else {
        4
    }
}

fn offset(chars: &Vec<char>, position: Position) -> (r: usize)
    ensures
        r == offset_of(chars@, position),
        r <= chars.len(),
{
    let mut at: usize = 0;
    let mut lines: u32 = position.line;
    while lines > 0 && at < chars.len()
        invariant
            at <= chars.len(),
            skip_lines(chars@, at as int, lines as nat) == skip_lines(
                chars@,
                0,
                position.line as nat,
            ),
        decreases chars.len() - at,
    {
        if chars[at] == '\n' {
            lines -= 1;
        }
        at += 1;
    }
    let ghost start = at as int;
    let mut columns: u32 = position.character;
    while at < chars.len() && chars[at] != '\n' && width(chars[at]) <= columns
        invariant
            at <= chars.len(),
            start == skip_lines(chars@, 0, position.line as nat),
            skip_columns(chars@, at as int, columns as nat) == skip_columns(
                chars@,
                start,
                position.character as nat,
            ),
        decreases chars.len() - at,
    {
        columns -= width(chars[at]);
        at += 1;
    }
    at
}

/// The index in `text` of what stands at `position`, counted in characters.
pub fn position_offset(text: &str, position: Position) -> (r: usize)
    ensures
        r == offset_of(text@, position),
        r <= text@.len(),
{
    let chars = to_chars(text);
    offset(&chars, position)
}

/// The offsets at which the range of an edit starts and ends.
struct Span {
    start: usize,
    end: usize,
}

spec fn spans_of(text: Seq<char>, edits: Seq<TextEditView>, spans: Seq<Span>) -> bool {
    &&& spans.len() == edits.len()
    &&& forall|k: int|
        0 <= k < edits.len() ==> (#[trigger] spans[k]).start == offset_of(
            text,
            edits[k].range.start,
        ) && spans[k].end == offset_of(text, edits[k].range.end)
}

fn push_inserted(
    out: &mut String,
    text: &Vec<char>,
    edits: &Vec<TextEdit>,
    spans: &Vec<Span>,
    at: usize,
)
    requires
        spans_of(text@, edits.deep_view(), spans@),
    ensures
        final(out)@ == old(out)@ + inserted_at(text@, edits.deep_view(), at as int),
{
    let ghost all = edits.deep_view();
    let ghost before = out@;
    let mut k: usize = 0;
    assert(all.take(0) == Seq::<TextEditView>::empty());
    while k < edits.len()
        invariant
            k <= edits.len(),
            all == edits.deep_view(),
            spans_of(text@, all, spans@),
            out@ == before + inserted_at(text@, all.take(k as int), at as int),
        decreases edits.len() - k,
    {
        if spans[k].start == at {
            out.append(edits[k].new_text.as_str());
        }
        assert(all.take(k + 1).drop_last() == all.take(k as int));
        assert(all.take(k + 1).last() == all[k as int]);
        assert(out@ =~= before + inserted_at(text@, all.take(k + 1), at as int));
        k += 1;
    }
    assert(all.take(k as int) == all);
}

fn is_removed(text: &Vec<char>, edits: &Vec<TextEdit>, spans: &Vec<Span>, at: usize) -> (r: bool)
    requires
        spans_of(text@, edits.deep_view(), spans@),
    ensures
        r == removed_at(text@, edits.deep_view(), at as int),
{
    let ghost all = edits.deep_view();
    let mut k: usize = 0;
    while k < spans.len()
        invariant
            k <= spans.len(),
            all == edits.deep_view(),
            spans_of(text@, all, spans@),
            forall|j: int| 0 <= j < k ==> !((#[trigger] spans@[j]).start <= at < spans@[j].end),
        decreases spans.len() - k,
    {
        if spans[k].start <= at && at < spans[k].end {
            assert(spans@[k as int].start == offset_of(text@, all[k as int].range.start));
            return true;
        }
        k += 1;
    }
    assert forall|j: int| 0 <= j < all.len() implies !(offset_of(
        text@,
        (#[trigger] all[j]).range.start,
    ) <= at < offset_of(text@, all[j].range.end)) by {
        assert(spans@[j].start == offset_of(text@, all[j].range.start));
    }
    false
}

/// Applies `edits` to `text`, all of them at once.
pub fn apply_edits(text: &str, edits: &Vec<TextEdit>) -> (r: String)
    ensures
        r@ == edited(text@, edits.deep_view()),
{
    let chars = to_chars(text);
    let ghost all = edits.deep_view();
    let mut spans: Vec<Span> = Vec::new();
    let mut k: usize = 0;
    while k < edits.len()
        invariant
            k <= edits.len(),
            all == edits.deep_view(),
            spans_of(chars@, all.take(k as int), spans@),
        decreases edits.len() - k,
    {
        let range = edits[k].range;
        spans.push(Span { start: offset(&chars, range.start), end: offset(&chars, range.end) });
        assert(all.take(k + 1) == all.take(k as int).push(all[k as int]));
        k += 1;
    }
    assert(all.take(k as int) == all);
    let mut out = String::new();
    let mut at: usize = 0;
    while at < chars.len()
        invariant
            at <= chars.len(),
            all == edits.deep_view(),
            spans_of(chars@, all, spans@),
            out@ == edited_prefix(chars@, all, at as nat),
        decreases chars.len() - at,
    {
        push_inserted(&mut out, &chars, edits, &spans, at);
        if !is_removed(&chars, edits, &spans, at) {
            out.push(chars[at]);
        }
        assert(out@ =~= edited_prefix(chars@, all, (at + 1) as nat));
        at += 1;
    }
    push_inserted(&mut out, &chars, edits, &spans, at);
    assert(out@ =~= edited(text@, all));
    out
}

/// The columns that `text` takes up, or the largest number that a column can
/// have.
pub fn columns_of(text: &str) -> (r: u32)
    ensures
        r == as_column(text_width(text@) as int),
{
    let chars = to_chars(text);
    let mut sum: u32 = 0;
    let mut k: usize = 0;
    assert(chars@.take(0) == Seq::<char>::empty());
    while k < chars.len()
        invariant
            k <= chars.len(),
            sum == as_column(text_width(chars@.take(k as int)) as int),
        decreases chars.len() - k,
    {
        assert(chars@.take(k + 1).drop_last() == chars@.take(k as int));
        sum = sum.saturating_add(width(chars[k]));
        k += 1;
    }
    assert(chars@.take(k as int) == chars@);
    sum
}

/// Where `edits` to single lines move what stands at `position`.
pub fn move_position(position: Position, edits: &Vec<TextEdit>) -> (r: Position)
    ensures
        r == moved(position, edits.deep_view()),
{
    let ghost all = edits.deep_view();
    let mut shift: i128 = 0;
    let mut k: usize = 0;
    while k < edits.len()
        invariant
            k <= edits.len(),
            all == edits.deep_view(),
            shift == column_shift(position, all.take(k as int)),
            -0x2_0000_0000 * k <= shift <= 0x2_0000_0000 * k,
        decreases edits.len() - k,
    {
        let edit = &edits[k];
        proof {
            assert(all.take(k + 1).drop_last() == all.take(k as int));
            assert(all.take(k + 1).last() == edit.deep_view());
        }
        if edit.range.start.line == position.line && edit.range.end.line == position.line
            && edit.range.end.character <= position.character {
            let added = columns_of(edit.new_text.as_str()) as i128;
            shift = shift + (added + edit.range.start.character as i128
                - edit.range.end.character as i128);
        }
        k += 1;
    }
    assert(all.take(k as int) == all);
    let column: i128 = position.character as i128 + shift;
    let character: u32 = if column < 0 {
        0
    } else if column > u32::MAX as i128 {
        u32::MAX
    } else {
        column as u32
    };
    Position { line: position.line, character }
}

/// Where `edits` to single lines move what stands at `range`.
pub fn move_range(range: Range, edits: &Vec<TextEdit>) -> (r: Range)
    ensures
        r == moved_range(range, edits.deep_view()),
{
    Range { start: move_position(range.start, edits), end: move_position(range.end, edits) }
}

} // verus!
