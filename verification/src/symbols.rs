//! Named places in files.

use crate::edit;
use crate::file_depot::{FileDepot, Files};
use crate::types::{Location, LocationView, Range, TextEdit, TextEditView};
use vstd::prelude::*;
use vstd::string::*;

verus! {

/// A name and the place at which it stands.
#[derive(PartialEq, Eq, Debug)]
pub struct Symbol {
    pub name: String,
    pub uri: String,
    pub range: Range,
}

/// What a [`Symbol`] stands for.
pub struct SymbolView {
    pub name: Seq<char>,
    pub uri: Seq<char>,
    pub range: Range,
}

impl DeepView for Symbol {
    type V = SymbolView;

    open spec fn deep_view(&self) -> SymbolView {
        SymbolView { name: self.name@, uri: self.uri@, range: self.range }
    }
}

impl SymbolView {
    /// Where the name stands.
    pub open spec fn location(self) -> LocationView {
        LocationView { uri: self.uri, range: self.range }
    }

    /// Whether this is `name` in a file that is connected with `uri`.
    pub open spec fn is_visible(self, files: Files, uri: Seq<char>, name: Seq<char>) -> bool {
        self.name == name && files.connects(uri, self.uri)
    }

    /// The symbol once the ones named `before` in `uri` are named `after`.
    pub open spec fn renamed(
        self,
        uri: Seq<char>,
        before: Seq<char>,
        after: Seq<char>,
    ) -> SymbolView {
        if self.uri == uri && self.name == before {
            SymbolView { name: after, ..self }
        } else {
            self
        }
    }

    /// The symbol once `edits` were made to the text of `uri`.
    pub open spec fn edited(self, uri: Seq<char>, edits: Seq<TextEditView>) -> SymbolView {
        if self.uri == uri {
            SymbolView { range: edit::moved_range(self.range, edits), ..self }
        } else {
            self
        }
    }
}

/// The places of `name` in `symbols`, in the files that are connected with
/// `uri`.
pub open spec fn places(
    symbols: Seq<SymbolView>,
    files: Files,
    uri: Seq<char>,
    name: Seq<char>,
) -> Seq<LocationView> {
    symbols.filter(|s: SymbolView| s.is_visible(files, uri, name)).map_values(
        |s: SymbolView| s.location(),
    )
}

/// `symbols` without those of `uri`.
pub open spec fn without_file(symbols: Seq<SymbolView>, uri: Seq<char>) -> Seq<SymbolView> {
    symbols.filter(|s: SymbolView| s.uri != uri)
}

/// The edits that put `after` at the places of `before` in `uri` that
/// `symbols` hold.
pub open spec fn own_edits(
    symbols: Seq<SymbolView>,
    uri: Seq<char>,
    before: Seq<char>,
    after: Seq<char>,
) -> Seq<TextEditView> {
    symbols.filter(|s: SymbolView| s.uri == uri && s.name == before).map_values(
        |s: SymbolView| TextEditView { range: s.range, new_text: after },
    )
}

/// `symbols` once those named `before` in `uri` are named `after`. What
/// follows one of them on its line is moved by the columns that the new name
/// takes up more.
pub open spec fn all_renamed(
    symbols: Seq<SymbolView>,
    uri: Seq<char>,
    before: Seq<char>,
    after: Seq<char>,
) -> Seq<SymbolView> {
    if before == after {
        symbols
    } else {
        let edits = own_edits(symbols, uri, before, after);
        symbols.map_values(|s: SymbolView| s.renamed(uri, before, after).edited(uri, edits))
    }
}

/// A map that keeps what a filter keeps, and keeps out what it keeps out,
/// can be left out in front of the filter.
pub(crate) proof fn lemma_filter_after_map<A>(
    all: Seq<A>,
    f: spec_fn(A) -> A,
    q: spec_fn(A) -> bool,
)
    requires
        forall|x: A| #[trigger] q(x) ==> f(x) == x,
        forall|x: A| !(#[trigger] q(x)) ==> !q(f(x)),
    ensures
        all.map_values(f).filter(q) == all.filter(q),
    decreases all.len(),
{
    reveal(Seq::filter);
    if all.len() > 0 {
        let rest = all.drop_last();
        lemma_filter_after_map(rest, f, q);
        assert(all.map_values(f) =~= rest.map_values(f).push(f(all.last())));
        assert(all =~= rest.push(all.last()));
        rest.lemma_filter_push(all.last(), q);
        rest.map_values(f).lemma_filter_push(f(all.last()), q);
    } else {
        assert(all.map_values(f) =~= all);
    }
}

/// Tells whether `uri` is among `files`.
pub(crate) fn is_one_of(files: &Vec<String>, uri: &String) -> (r: bool)
    ensures
        r == files.deep_view().contains(uri@),
{
    let mut k: usize = 0;
    while k < files.len()
        invariant
            k <= files.len(),
            forall|j: int| 0 <= j < k ==> (#[trigger] files.deep_view()[j]) != uri@,
        decreases files.len() - k,
    {
        if files[k] == *uri {
            assert(files.deep_view()[k as int] == uri@);
            return true;
        }
        k += 1;
    }
    false
}

/// A list of symbols.
pub struct SymbolTable {
    symbols: Vec<Symbol>,
}

impl View for SymbolTable {
    type V = Seq<SymbolView>;

    closed spec fn view(&self) -> Seq<SymbolView> {
        self.symbols.deep_view()
    }
}

impl SymbolTable {
    /// A table without symbols.
    pub fn new() -> (r: SymbolTable)
        ensures
            r@ == Seq::<SymbolView>::empty(),
    {
        let r = SymbolTable { symbols: Vec::new() };
        assert(r@ =~= Seq::empty());
        r
    }

    /// Adds `name` at `range` of `uri`.
    pub fn add(&mut self, name: &str, uri: &str, range: Range)
        ensures
            final(self)@ == old(self)@.push(SymbolView { name: name@, uri: uri@, range }),
    {
        self.symbols.push(Symbol { name: name.to_owned(), uri: uri.to_owned(), range });
        assert(self@ =~= old(self)@.push(SymbolView { name: name@, uri: uri@, range }));
    }

    /// The places of `name` in the files that are connected with `uri`.
    pub fn find(&self, fd: &FileDepot, uri: &str, name: &str) -> (r: Vec<Location>)
        ensures
            r.deep_view() == places(self@, fd@, uri@, name@),
    {
        let files = fd.get_component(uri);
        let name = name.to_owned();
        let mut found: Vec<Location> = Vec::new();
        let ghost wanted = |s: SymbolView| s.is_visible(fd@, uri@, name@);
        let ghost place = |s: SymbolView| s.location();
        let mut k: usize = 0;
        proof {
            reveal(Seq::filter);
            assert(self@.take(0).filter(wanted).map_values(place) =~= Seq::empty());
            assert(found.deep_view() =~= Seq::empty());
        }
        while k < self.symbols.len()
            invariant
                k <= self.symbols.len(),
                wanted == (|s: SymbolView| s.is_visible(fd@, uri@, name@)),
                place == (|s: SymbolView| s.location()),
                forall|file: Seq<char>| #[trigger]
                    files.deep_view().contains(file) <==> fd@.connects(uri@, file),
                found.deep_view() == self@.take(k as int).filter(wanted).map_values(place),
            decreases self.symbols.len() - k,
        {
            let symbol = &self.symbols[k];
            let ghost before = found.deep_view();
            proof {
                assert(self@.take(k + 1) =~= self@.take(k as int).push(symbol.deep_view()));
                self@.take(k as int).lemma_filter_push(symbol.deep_view(), wanted);
            }
            if symbol.name == name && is_one_of(&files, &symbol.uri) {
                found.push(Location { uri: symbol.uri.clone(), range: symbol.range });
                assert(found.deep_view() =~= before.push(symbol.deep_view().location()));
            }
            assert(found.deep_view() =~= self@.take(k + 1).filter(wanted).map_values(place));
            k += 1;
        }
        assert(self@.take(k as int) =~= self@);
        found
    }

    /// The edits that put `after` at the places of `before` in `uri`.
    fn edits_of(&self, uri: &String, before: &String, after: &str) -> (r: Vec<TextEdit>)
        ensures
            r.deep_view() == own_edits(self@, uri@, before@, after@),
    {
        let ghost wanted = |s: SymbolView| s.uri == uri@ && s.name == before@;
        let ghost put = |s: SymbolView| TextEditView { range: s.range, new_text: after@ };
        let mut edits: Vec<TextEdit> = Vec::new();
        let mut k: usize = 0;
        proof {
            reveal(Seq::filter);
            assert(self@.take(0).filter(wanted).map_values(put) =~= Seq::empty());
            assert(edits.deep_view() =~= Seq::empty());
        }
        while k < self.symbols.len()
            invariant
                k <= self.symbols.len(),
                wanted == (|s: SymbolView| s.uri == uri@ && s.name == before@),
                put == (|s: SymbolView| TextEditView { range: s.range, new_text: after@ }),
                edits.deep_view() == self@.take(k as int).filter(wanted).map_values(put),
            decreases self.symbols.len() - k,
        {
            let symbol = &self.symbols[k];
            let ghost now = edits.deep_view();
            proof {
                assert(self@.take(k + 1) =~= self@.take(k as int).push(symbol.deep_view()));
                self@.take(k as int).lemma_filter_push(symbol.deep_view(), wanted);
            }
            if symbol.uri == *uri && symbol.name == *before {
                edits.push(TextEdit { range: symbol.range, new_text: after.to_owned() });
                assert(edits.deep_view() =~= now.push(put(symbol.deep_view())));
            }
            assert(edits.deep_view() =~= self@.take(k + 1).filter(wanted).map_values(put));
            k += 1;
        }
        assert(self@.take(k as int) =~= self@);
        edits
    }

    /// Names `after` what was named `before` in `uri`, and moves what follows
    /// it on its line.
    pub fn rename(&mut self, uri: &str, before: &str, after: &str)
        ensures
            final(self)@ == all_renamed(old(self)@, uri@, before@, after@),
    {
        let uri = uri.to_owned();
        let before = before.to_owned();
        if before == after.to_owned() {
            return;
        }
        let edits = self.edits_of(&uri, &before, after);
        let mut k: usize = 0;
        while k < self.symbols.len()
            invariant
                k <= self.symbols.len(),
                self@.len() == old(self)@.len(),
                forall|j: int|
                    0 <= j < k ==> (#[trigger] self@[j]) == old(self)@[j].renamed(
                        uri@,
                        before@,
                        after@,
                    ).edited(uri@, edits.deep_view()),
                forall|j: int| k <= j < self@.len() ==> (#[trigger] self@[j]) == old(self)@[j],
            decreases self.symbols.len() - k,
        {
            let ghost now = self@;
            assert(now[k as int] == old(self)@[k as int]);
            if self.symbols[k].uri == uri {
                let range = edit::move_range(self.symbols[k].range, &edits);
                let name = if self.symbols[k].name == before {
                    after.to_owned()
                } else {
                    self.symbols[k].name.clone()
                };
                self.symbols.set(k, Symbol { name, uri: uri.clone(), range });
            }
            assert(self@ =~= now.update(
                k as int,
                old(self)@[k as int].renamed(uri@, before@, after@).edited(
                    uri@,
                    edits.deep_view(),
                ),
            ));
            k += 1;
        }
        assert(self@ =~= all_renamed(old(self)@, uri@, before@, after@));
    }

    /// Removes the symbols of `uri`.
    pub fn invalidate(&mut self, uri: &str)
        ensures
            final(self)@ == without_file(old(self)@, uri@),
    {
        let uri = uri.to_owned();
        let ghost all = self@;
        let ghost kept = |s: SymbolView| s.uri != uri@;
        let mut rest: Vec<Symbol> = Vec::new();
        let mut k: usize = 0;
        proof {
            reveal(Seq::filter);
            assert(all.take(0).filter(kept) =~= Seq::empty());
            assert(rest.deep_view() =~= Seq::empty());
        }
        while k < self.symbols.len()
            invariant
                k <= self.symbols.len(),
                all == self@,
                kept == (|s: SymbolView| s.uri != uri@),
                rest.deep_view() == all.take(k as int).filter(kept),
            decreases self.symbols.len() - k,
        {
            let symbol = &self.symbols[k];
            let ghost before = rest.deep_view();
            proof {
                assert(all.take(k + 1) =~= all.take(k as int).push(symbol.deep_view()));
                all.take(k as int).lemma_filter_push(symbol.deep_view(), kept);
            }
            if symbol.uri != uri {
                rest.push(
                    Symbol {
                        name: symbol.name.clone(),
                        uri: symbol.uri.clone(),
                        range: symbol.range,
                    },
                );
                assert(rest.deep_view() =~= before.push(symbol.deep_view()));
            }
            k += 1;
        }
        assert(all.take(k as int) =~= all);
        self.symbols = rest;
    }
}

} // verus!
