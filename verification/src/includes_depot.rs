//! The macros that the files define.

use crate::file_depot::{FileDepot, Files};
use crate::symbols::{is_one_of, SymbolView};
use crate::types::{Location, LocationView, Range};
use vstd::prelude::*;
use vstd::string::*;

verus! {

/// A macro: its name, where that stands, and the text that it stands for.
#[derive(PartialEq, Eq, Debug)]
pub struct Define {
    pub name: String,
    pub uri: String,
    pub range: Range,
    pub value: String,
}

/// What a [`Define`] stands for.
pub struct DefineView {
    pub symbol: SymbolView,
    pub value: Seq<char>,
}

impl DeepView for Define {
    type V = DefineView;

    open spec fn deep_view(&self) -> DefineView {
        DefineView {
            symbol: SymbolView { name: self.name@, uri: self.uri@, range: self.range },
            value: self.value@,
        }
    }
}

impl DefineView {
    /// Whether both are macros of one name in one file.
    pub open spec fn same_key(self, other: DefineView) -> bool {
        self.symbol.name == other.symbol.name && self.symbol.uri == other.symbol.uri
    }
}

/// `defines` with `new`, which takes the place of the macro of that name in
/// that file where there is one.
pub open spec fn with_define(defines: Seq<DefineView>, new: DefineView) -> Seq<DefineView> {
    if exists|k: int| 0 <= k < defines.len() && (#[trigger] defines[k]).same_key(new) {
        defines.map_values(
            |d: DefineView|
                if d.same_key(new) {
                    new
                } else {
                    d
                },
        )
    } else {
        defines.push(new)
    }
}

/// The place of the first macro `name` in the files that are connected with
/// `uri`.
pub open spec fn define_place(
    defines: Seq<DefineView>,
    files: Files,
    uri: Seq<char>,
    name: Seq<char>,
) -> Option<LocationView> {
    let visible = defines.filter(|d: DefineView| d.symbol.is_visible(files, uri, name));
    if visible.len() > 0 {
        Some(visible.first().symbol.location())
    } else {
        None
    }
}

/// The macros that the files define. A file has at most one of each name.
pub struct IncludesDepot {
    defines: Vec<Define>,
}

impl View for IncludesDepot {
    type V = Seq<DefineView>;

    closed spec fn view(&self) -> Seq<DefineView> {
        self.defines.deep_view()
    }
}

impl IncludesDepot {
    /// A depot without macros.
    pub fn new() -> (r: IncludesDepot)
        ensures
            r@ == Seq::<DefineView>::empty(),
    {
        let r = IncludesDepot { defines: Vec::new() };
        assert(r@ =~= Seq::empty());
        r
    }

    /// Adds the macro `name` at `range` of `uri`, which stands for `value`,
    /// in place of the one of that name that the file had.
    pub fn add_define(&mut self, name: &str, uri: &str, range: Range, value: &str)
        ensures
            final(self)@ == with_define(
                old(self)@,
                DefineView {
                    symbol: SymbolView { name: name@, uri: uri@, range },
                    value: value@,
                },
            ),
    {
        let name = name.to_owned();
        let uri = uri.to_owned();
        let ghost new = DefineView {
            symbol: SymbolView { name: name@, uri: uri@, range },
            value: value@,
        };
        let mut known: bool = false;
        let mut k: usize = 0;
        while k < self.defines.len()
            invariant
                k <= self.defines.len(),
                new == (DefineView {
                    symbol: SymbolView { name: name@, uri: uri@, range },
                    value: value@,
                }),
                self@.len() == old(self)@.len(),
                known == exists|j: int| 0 <= j < k && (#[trigger] old(self)@[j]).same_key(new),
                forall|j: int|
                    0 <= j < k ==> (#[trigger] self@[j]) == if old(self)@[j].same_key(new) {
                        new
                    } else {
                        old(self)@[j]
                    },
                forall|j: int| k <= j < self@.len() ==> (#[trigger] self@[j]) == old(self)@[j],
            decreases self.defines.len() - k,
        {
            let ghost now = self@;
            assert(now[k as int] == old(self)@[k as int]);
            if self.defines[k].name == name && self.defines[k].uri == uri {
                known = true;
                self.defines.set(
                    k,
                    Define {
                        name: name.clone(),
                        uri: uri.clone(),
                        range,
                        value: value.to_owned(),
                    },
                );
            }
            assert(self@ =~= now.update(
                k as int,
                if old(self)@[k as int].same_key(new) {
                    new
                } else {
                    old(self)@[k as int]
                },
            ));
            k += 1;
        }
        if !known {
            assert(self@ =~= old(self)@);
            self.defines.push(Define { name, uri, range, value: value.to_owned() });
            assert(self@ =~= old(self)@.push(new));
        }
        assert(self@ =~= with_define(old(self)@, new));
    }

    /// The place of the first macro `name` in the files that are connected
    /// with `uri`.
    pub fn find_define(&self, fd: &FileDepot, uri: &str, name: &str) -> (r: Option<Location>)
        ensures
            r.deep_view() == define_place(self@, fd@, uri@, name@),
    {
        let files = fd.get_component(uri);
        let key = name.to_owned();
        let ghost wanted = |d: DefineView| d.symbol.is_visible(fd@, uri@, name@);
        let mut k: usize = 0;
        proof {
            reveal(Seq::filter);
        }
        while k < self.defines.len()
            invariant
                k <= self.defines.len(),
                key@ == name@,
                wanted == (|d: DefineView| d.symbol.is_visible(fd@, uri@, name@)),
                forall|file: Seq<char>| #[trigger]
                    files.deep_view().contains(file) <==> fd@.connects(uri@, file),
                self@.take(k as int).filter(wanted) =~= Seq::empty(),
            decreases self.defines.len() - k,
        {
            let define = &self.defines[k];
            proof {
                assert(self@.take(k + 1) =~= self@.take(k as int).push(define.deep_view()));
                self@.take(k as int).lemma_filter_push(define.deep_view(), wanted);
            }
            if define.name == key && is_one_of(&files, &define.uri) {
                proof {
                    Seq::filter_distributes_over_add(
                        self@.take(k + 1),
                        self@.skip(k + 1),
                        wanted,
                    );
                    assert(self@ =~= self@.take(k + 1) + self@.skip(k + 1));
                    assert(self@.take(k + 1).filter(wanted) =~= seq![define.deep_view()]);
                    assert(self@.filter(wanted)[0] == define.deep_view());
                }
                return Some(Location { uri: define.uri.clone(), range: define.range });
            }
            k += 1;
        }
        assert(self@.take(k as int) =~= self@);
        None
    }
}

} // verus!
