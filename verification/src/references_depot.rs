//! The references of the files.

use crate::file_depot::FileDepot;
use crate::symbols::{all_renamed, places, without_file, SymbolTable, SymbolView};
use crate::types::{Location, Range};
use vstd::prelude::*;

verus! {

/// The references that stand in the files, in the order in which they were added.
pub struct ReferencesDepot {
    table: SymbolTable,
}

impl View for ReferencesDepot {
    type V = Seq<SymbolView>;

    closed spec fn view(&self) -> Seq<SymbolView> {
        self.table@
    }
}

impl ReferencesDepot {
    /// A depot without references.
    pub fn new() -> (r: ReferencesDepot)
        ensures
            r@ == Seq::<SymbolView>::empty(),
    {
        ReferencesDepot { table: SymbolTable::new() }
    }

    /// Adds the reference `name` at `range` of `uri`.
    pub fn add_reference(&mut self, name: &str, uri: &str, range: Range)
        ensures
            final(self)@ == old(self)@.push(SymbolView { name: name@, uri: uri@, range }),
    {
        self.table.add(name, uri, range);
    }

    /// The places of the references `name` in the files that are connected with
    /// `uri`.
    pub fn find_references(&self, fd: &FileDepot, uri: &str, name: &str) -> (r: Vec<Location>)
        ensures
            r.deep_view() == places(self@, fd@, uri@, name@),
    {
        self.table.find(fd, uri, name)
    }

    /// Names `after` the references of `uri` that were named `before`, and
    /// moves the references that follow them on their lines.
    pub fn rename(&mut self, uri: &str, before: &str, after: &str)
        ensures
            final(self)@ == all_renamed(old(self)@, uri@, before@, after@),
    {
        self.table.rename(uri, before, after);
    }

    /// Removes the references of `uri`.
    pub fn invalidate(&mut self, uri: &str)
        ensures
            final(self)@ == without_file(old(self)@, uri@),
    {
        self.table.invalidate(uri);
    }
}

} // verus!
