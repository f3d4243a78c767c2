//! Positions, ranges and the values that requests are answered with.

use vstd::prelude::*;

verus! {

/// A place in a text: a line and a column, both counted from zero.
///
/// Columns count the bytes of the line's UTF-8 encoding.
#[derive(Clone, Copy, PartialEq, Eq, Structural, Debug)]
pub struct Position {
    pub line: u32,
    pub character: u32,
}

/// The part of a text from `start` up to, but not with, `end`.
#[derive(Clone, Copy, PartialEq, Eq, Structural, Debug)]
pub struct Range {
    pub start: Position,
    pub end: Position,
}

/// A range of the file `uri`.
#[derive(PartialEq, Eq, Debug)]
pub struct Location {
    pub uri: String,
    pub range: Range,
}

impl Clone for Location {
    fn clone(&self) -> (r: Self)
        ensures
            r == *self,
    {
        Location { uri: self.uri.clone(), range: self.range }
    }
}

/// What a [`Location`] stands for.
pub struct LocationView {
    pub uri: Seq<char>,
    pub range: Range,
}

impl DeepView for Location {
    type V = LocationView;

    open spec fn deep_view(&self) -> LocationView {
        LocationView { uri: self.uri@, range: self.range }
    }
}

/// The replacement of what stands at `range` by `new_text`.
#[derive(PartialEq, Eq, Debug)]
pub struct TextEdit {
    pub range: Range,
    pub new_text: String,
}

impl Clone for TextEdit {
    fn clone(&self) -> (r: Self)
        ensures
            r == *self,
    {
        TextEdit { range: self.range, new_text: self.new_text.clone() }
    }
}

/// What a [`TextEdit`] stands for.
pub struct TextEditView {
    pub range: Range,
    pub new_text: Seq<char>,
}

impl DeepView for TextEdit {
    type V = TextEditView;

    open spec fn deep_view(&self) -> TextEditView {
        TextEditView { range: self.range, new_text: self.new_text@ }
    }
}

} // verus!
