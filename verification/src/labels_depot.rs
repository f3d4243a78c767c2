//! The labels of the files.

use crate::file_depot::FileDepot;
use crate::symbols::{all_renamed, places, without_file, SymbolTable, SymbolView};
use crate::types::{Location, Range};
use vstd::prelude::*;

verus! {

/// The labels that stand in the files, in the order in which they were added.
pub struct LabelsDepot {
    table: SymbolTable,
}

impl View for LabelsDepot {
    type V = Seq<SymbolView>;

    closed spec fn view(&self) -> Seq<SymbolView> {
        self.table@
    }
}

impl LabelsDepot {
    /// A depot without labels.
    pub fn new() -> (r: LabelsDepot)
        ensures
            r@ == Seq::<SymbolView>::empty(),
    {
        LabelsDepot { table: SymbolTable::new() }
    }

    /// Adds the label `name` at `range` of `uri`.
    pub fn add_label(&mut self, name: &str, uri: &str, range: Range)
        ensures
            final(self)@ == old(self)@.push(SymbolView { name: name@, uri: uri@, range }),
    {
        self.table.add(name, uri, range);
    }

    /// The places of the labels `name` in the files that are connected with
    /// `uri`.
    pub fn find_label(&self, fd: &FileDepot, uri: &str, name: &str) -> (r: Vec<Location>)
        ensures
            r.deep_view() == places(self@, fd@, uri@, name@),
    {
        self.table.find(fd, uri, name)
    }

    /// Names `after` the labels of `uri` that were named `before`, and moves
    /// the labels that follow them on their lines.
    pub fn rename(&mut self, uri: &str, before: &str, after: &str)
        ensures
            final(self)@ == all_renamed(old(self)@, uri@, before@, after@),
    {
        self.table.rename(uri, before, after);
    }

    /// Removes the labels of `uri`.
    pub fn invalidate(&mut self, uri: &str)
        ensures
            final(self)@ == without_file(old(self)@, uri@),
    {
        self.table.invalidate(uri);
    }
}

} // verus!
