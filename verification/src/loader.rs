//! Opening a file: which others are read with it, and in which order.
//!
//! Files are read by the caller, who performs one [`Action`] after the other
//! and hands back what came of it.

use crate::backend::{Backend, FileContent};
use crate::data::{file_kind, followed, kind_of, FileKind, Index, Unresolved};
use crate::url;
use std::path::PathBuf;
use vstd::prelude::*;
use vstd::string::*;

verus! {

/// What is to be done next for a file that was opened.
#[derive(PartialEq, Eq, Debug)]
pub enum Action {
    /// Read the file at this address, because an opened one is built from it.
    Follow(String),
    /// List the files of the directory at this address.
    List(String),
    /// Read the file at this address, because it is in that directory.
    Visit(String),
    /// The opened file is in no directory that could be listed.
    NoDirectory,
    /// Nothing.
    Done,
}

/// What an [`Action`] stands for.
pub enum ActionView {
    Follow(Seq<char>),
    List(Seq<char>),
    Visit(Seq<char>),
    NoDirectory,
    Done,
}

impl DeepView for Action {
    type V = ActionView;

    open spec fn deep_view(&self) -> ActionView {
        match self {
            Action::Follow(uri) => ActionView::Follow(uri@),
            Action::List(uri) => ActionView::List(uri@),
            Action::Visit(uri) => ActionView::Visit(uri@),
            Action::NoDirectory => ActionView::NoDirectory,
            Action::Done => ActionView::Done,
        }
    }
}

/// What is left to be done for a file that was opened.
pub struct Opening {
    uri: String,
    pending: Vec<String>,
    lists: bool,
    neighbours: Vec<String>,
}

/// What an [`Opening`] stands for.
#[verifier::ext_equal]
pub struct OpeningView {
    /// The address of the file.
    pub uri: Seq<char>,
    /// The files that others are built from. The last one is read first.
    pub pending: Seq<Seq<char>>,
    /// Whether the directory of the file is still to be listed.
    pub lists: bool,
    /// The files of that directory. The first one is read first.
    pub neighbours: Seq<Seq<char>>,
}

impl View for Opening {
    type V = OpeningView;

    closed spec fn view(&self) -> OpeningView {
        OpeningView {
            uri: self.uri@,
            pending: self.pending.deep_view(),
            lists: self.lists,
            neighbours: self.neighbours.deep_view(),
        }
    }
}

/// `pending` without the files at its end that are not indexed.
pub open spec fn indexed_last(pending: Seq<Seq<char>>) -> Seq<Seq<char>>
    decreases pending.len(),
{
    if pending.len() > 0 && kind_of(pending.last()) is Other {
        indexed_last(pending.drop_last())
    } else {
        pending
    }
}

/// `neighbours` without the files at its start that are not indexed or are
/// already known.
pub open spec fn unknown_first(neighbours: Seq<Seq<char>>, index: Index) -> Seq<Seq<char>>
    decreases neighbours.len(),
{
    if neighbours.len() > 0 && (index.files.texts.contains_key(neighbours.first()) || kind_of(
        neighbours.first(),
    ) is Other) {
        unknown_first(neighbours.drop_first(), index)
    } else {
        neighbours
    }
}

/// The path of the directory at `uri`: the one that the address stands for. An
/// address without a rooted path stands for none. What path a rooted address
/// stands for, if any, depends on the system.
pub fn directory_to_list(uri: &str) -> (r: Option<PathBuf>)
    ensures
        url::may_stand_for(uri, r),
        r is Some ==> url::is_rooted(uri@),
{
    url::asked_path(uri)
}

/// All of `found`, or none where one of them is missing.
pub fn all_addresses(found: Vec<Option<String>>) -> (r: Option<Vec<String>>)
    ensures
        match r {
            Some(files) => found.deep_view() == files.deep_view().map_values(
                |file: Seq<char>| Some(file),
            ),
            None => found.deep_view().contains(None),
        },
{
    let ghost all = found.deep_view();
    let mut files: Vec<String> = Vec::new();
    let mut k: usize = 0;
    while k < found.len()
        invariant
            all == found.deep_view(),
            k <= found.len(),
            files.len() == k,
            forall|j: int| 0 <= j < k ==> (#[trigger] all[j]) == Some(files.deep_view()[j]),
        decreases found.len() - k,
    {
        let ghost before = files.deep_view();
        match &found[k] {
            Some(file) => {
                files.push(file.clone());
                assert(all[k as int] == Some(file@));
                assert(files.deep_view() =~= before.push(file@));
            },
            None => {
                assert(all[k as int] is None);
                return None;
            },
        }
        k += 1;
    }
    assert(all =~= files.deep_view().map_values(|file: Seq<char>| Some(file)));
    Some(files)
}

/// The addresses of the files at `paths`, in order, or none where one of them
/// has no address. What address a path has, if any, depends on the system.
pub fn file_addresses(paths: &Vec<PathBuf>) -> (r: Option<Vec<String>>)
    ensures
        match r {
            Some(files) => {
                &&& files.len() == paths.len()
                &&& forall|k: int|
                    0 <= k < files.len() ==> url::may_be_at(
                        &paths[k],
                        Some(#[trigger] files.deep_view()[k]),
                    ) && url::is_file_address(files.deep_view()[k])
            },
            None => exists|k: int|
                0 <= k < paths.len() && url::may_be_at(&(#[trigger] paths[k]), None),
        },
{
    let mut found: Vec<Option<String>> = Vec::new();
    let mut k: usize = 0;
    while k < paths.len()
        invariant
            k <= paths.len(),
            found.len() == k,
            forall|j: int|
                0 <= j < k ==> url::may_be_at(&paths[j], #[trigger] found.deep_view()[j]),
            forall|j: int|
                0 <= j < k ==> match #[trigger] found.deep_view()[j] {
                    Some(uri) => url::is_file_address(uri),
                    None => true,
                },
        decreases paths.len() - k,
    {
        let ghost before = found.deep_view();
        let address = url::asked_address(&paths[k]);
        found.push(address);
        assert(found.deep_view() =~= before.push(address.deep_view()));
        k += 1;
    }
    let ghost all = found.deep_view();
    assert(all.len() == paths.len());
    let r = all_addresses(found);
    proof {
        match &r {
            Some(files) => {
                assert(files.deep_view().len() == all.len());
                assert forall|k: int| 0 <= k < files.len() implies url::may_be_at(
                    &paths[k],
                    Some(#[trigger] files.deep_view()[k]),
                ) && url::is_file_address(files.deep_view()[k]) by {
                    assert(url::may_be_at(&paths[k], all[k]));
                    assert(all[k] == Some(files.deep_view()[k]));
                }
            },
            None => {
                let k = choose|k: int| 0 <= k < all.len() && all[k] is None;
                assert(url::may_be_at(&paths[k], all[k]));
            },
        }
    }
    r
}

impl OpeningView {
    /// What is to be done next.
    pub open spec fn action(self, index: Index) -> ActionView {
        let pending = indexed_last(self.pending);
        let neighbours = unknown_first(self.neighbours, index);
        if pending.len() > 0 {
            ActionView::Follow(pending.last())
        } else if self.lists {
            match url::joined_url(self.uri, "."@) {
                Some(directory) => ActionView::List(directory),
                None => ActionView::NoDirectory,
            }
        } else if neighbours.len() > 0 {
            ActionView::Visit(neighbours.first())
        } else {
            ActionView::Done
        }
    }

    /// What is left to be done after that.
    pub open spec fn rest(self, index: Index) -> OpeningView {
        let pending = indexed_last(self.pending);
        let neighbours = unknown_first(self.neighbours, index);
        if pending.len() > 0 {
            OpeningView { pending: pending.drop_last(), ..self }
        } else if self.lists {
            OpeningView { pending: Seq::empty(), lists: false, ..self }
        } else if neighbours.len() > 0 {
            OpeningView {
                pending: Seq::empty(),
                neighbours: neighbours.drop_first(),
                ..self
            }
        } else {
            OpeningView { pending: Seq::empty(), neighbours: Seq::empty(), ..self }
        }
    }
}

impl Index {
    /// What is left to be done once `uri` was opened or changed, and
    /// `content` was found there.
    pub open spec fn opening(
        self,
        uri: Seq<char>,
        content: Option<Seq<char>>,
        lists: bool,
    ) -> Result<OpeningView, Seq<char>> {
        match self.after(uri, content) {
            Ok(targets) => Ok(
                OpeningView { uri, pending: targets, lists, neighbours: Seq::empty() },
            ),
            Err(path) => Err(path),
        }
    }

    /// What is left to be done of `opening` once `content` was found at `uri`,
    /// which was followed.
    pub open spec fn followed_by(
        self,
        opening: OpeningView,
        uri: Seq<char>,
        content: Option<Seq<char>>,
    ) -> OpeningView {
        match self.after(uri, content) {
            Ok(targets) => OpeningView { pending: opening.pending + targets, ..opening },
            Err(_) => opening,
        }
    }
}

/// What opening a file gave.
pub open spec fn opened(r: Result<Opening, Unresolved>) -> Result<OpeningView, Seq<char>> {
    match r {
        Ok(opening) => Ok(opening@),
        Err(unresolved) => Err(unresolved.path@),
    }
}

impl Opening {
    fn start(uri: &str, pending: Vec<String>, lists: bool) -> (r: Opening)
        ensures
            r@ == (OpeningView {
                uri: uri@,
                pending: pending.deep_view(),
                lists,
                neighbours: Seq::empty(),
            }),
    {
        let r = Opening { uri: uri.to_owned(), pending, lists, neighbours: Vec::new() };
        assert(r@.neighbours =~= Seq::empty());
        r
    }

    /// Takes the last pending file that is indexed.
    fn next_pending(&mut self) -> (r: Option<String>)
        ensures
            ({
                let pending = indexed_last(old(self)@.pending);
                &&& r.deep_view() == if pending.len() > 0 {
                    Some(pending.last())
                } else {
                    None
                }
                &&& final(self)@ == (OpeningView {
                    pending: if pending.len() > 0 {
                        pending.drop_last()
                    } else {
                        Seq::empty()
                    },
                    ..old(self)@
                })
            }),
    {
        while self.pending.len() > 0
            invariant
                indexed_last(self@.pending) == indexed_last(old(self)@.pending),
                self@ == (OpeningView { pending: self@.pending, ..old(self)@ }),
            decreases self.pending.len(),
        {
            let ghost before = self@.pending;
            if let Some(uri) = self.pending.pop() {
                proof {
                    assert(self@.pending =~= before.drop_last());
                    assert(uri@ == before.last());
                }
                match file_kind(uri.as_str()) {
                    FileKind::Other => {},
                    _ => return Some(uri),
                }
            }
        }
        assert(self@.pending =~= Seq::empty());
        None
    }

    /// Takes the first file of the directory that is indexed and not known.
    fn next_neighbour(&mut self, backend: &Backend) -> (r: Option<String>)
        ensures
            ({
                let neighbours = unknown_first(old(self)@.neighbours, backend@);
                &&& r.deep_view() == if neighbours.len() > 0 {
                    Some(neighbours.first())
                } else {
                    None
                }
                &&& final(self)@ == (OpeningView {
                    neighbours: if neighbours.len() > 0 {
                        neighbours.drop_first()
                    } else {
                        Seq::empty()
                    },
                    ..old(self)@
                })
            }),
    {
        while self.neighbours.len() > 0
            invariant
                unknown_first(self@.neighbours, backend@) == unknown_first(
                    old(self)@.neighbours,
                    backend@,
                ),
                self@ == (OpeningView { neighbours: self@.neighbours, ..old(self)@ }),
            decreases self.neighbours.len(),
        {
            let ghost before = self@.neighbours;
            let uri = self.neighbours.remove(0);
            proof {
                assert(self@.neighbours =~= before.drop_first());
                assert(uri@ == before.first());
            }
            if !backend.data.fd.exist(uri.as_str()) {
                match file_kind(uri.as_str()) {
                    FileKind::Other => {},
                    _ => return Some(uri),
                }
            }
        }
        assert(self@.neighbours =~= Seq::empty());
        None
    }

    /// Tells what is to be done next.
    pub fn next_action(&mut self, backend: &Backend) -> (r: Action)
        ensures
            r.deep_view() == old(self)@.action(backend@),
            final(self)@ == old(self)@.rest(backend@),
    {
        if let Some(uri) = self.next_pending() {
            return Action::Follow(uri);
        }
        if self.lists {
            self.lists = false;
            return match url::join(self.uri.as_str(), ".") {
                Some(directory) => Action::List(directory),
                None => Action::NoDirectory,
            };
        }
        match self.next_neighbour(backend) {
            Some(uri) => Action::Visit(uri),
            None => Action::Done,
        }
    }

    /// Takes the addresses of the files that were listed.
    pub fn open_neighbours(&mut self, files: Vec<String>)
        ensures
            final(self)@ == (OpeningView { neighbours: files.deep_view(), ..old(self)@ }),
    {
        self.neighbours = files;
    }
}

impl Backend {
    /// Opens the file `uri`, at which `content` was found.
    pub fn did_open(&mut self, uri: &str, content: FileContent) -> (r: Result<
        Opening,
        Unresolved,
    >)
        ensures
            final(self)@ == old(self)@.handled(uri@, content.deep_view()),
            final(self).process_neighbours == old(self).process_neighbours,
            old(self)@.is_sound() ==> final(self)@.is_sound(),
            opened(r) == old(self)@.opening(
                uri@,
                content.deep_view(),
                old(self).process_neighbours,
            ),
            match (r, old(self)@.after(uri@, content.deep_view())) {
                (Ok(opening), Ok(targets)) => opening@ == (OpeningView {
                    uri: uri@,
                    pending: targets,
                    lists: old(self).process_neighbours,
                    neighbours: Seq::empty(),
                }),
                (Err(unresolved), Err(path)) => unresolved.path@ == path,
                _ => false,
            },
    {
        let lists = self.process_neighbours;
        match self.handle_file(uri, content) {
            Ok(targets) => Ok(Opening::start(uri, targets, lists)),
            Err(unresolved) => Err(unresolved),
        }
    }

    /// Takes the new content of the opened file `uri`.
    pub fn did_change(&mut self, uri: &str, content: FileContent) -> (r: Result<
        Opening,
        Unresolved,
    >)
        ensures
            final(self)@ == old(self)@.handled(uri@, content.deep_view()),
            final(self).process_neighbours == old(self).process_neighbours,
            old(self)@.is_sound() ==> final(self)@.is_sound(),
            opened(r) == old(self)@.opening(uri@, content.deep_view(), false),
            match (r, old(self)@.after(uri@, content.deep_view())) {
                (Ok(opening), Ok(targets)) => opening@ == (OpeningView {
                    uri: uri@,
                    pending: targets,
                    lists: false,
                    neighbours: Seq::empty(),
                }),
                (Err(unresolved), Err(path)) => unresolved.path@ == path,
                _ => false,
            },
    {
        match self.handle_file(uri, content) {
            Ok(targets) => Ok(Opening::start(uri, targets, false)),
            Err(unresolved) => Err(unresolved),
        }
    }

    /// Takes what was found at `uri`, which was to be followed. The files
    /// that it is built from are to be read before any other.
    pub fn follow(&mut self, opening: &mut Opening, uri: &str, content: FileContent) -> (r: Result<
        (),
        Unresolved,
    >)
        ensures
            final(self)@ == old(self)@.handled(uri@, content.deep_view()),
            final(self).process_neighbours == old(self).process_neighbours,
            old(self)@.is_sound() ==> final(self)@.is_sound(),
            final(opening)@ == old(self)@.followed_by(
                old(opening)@,
                uri@,
                content.deep_view(),
            ),
            match (r, old(self)@.after(uri@, content.deep_view())) {
                (Ok(_), Ok(targets)) => final(opening)@ == (OpeningView {
                    pending: old(opening)@.pending + targets,
                    ..old(opening)@
                }),
                (Err(unresolved), Err(path)) => unresolved.path@ == path && final(opening)@
                    == old(opening)@,
                _ => false,
            },
    {
        match self.handle_file(uri, content) {
            Ok(mut targets) => {
                let ghost added = targets.deep_view();
                opening.pending.append(&mut targets);
                assert(opening@.pending =~= old(opening)@.pending + added);
                Ok(())
            },
            Err(unresolved) => Err(unresolved),
        }
    }

    /// Takes what was found at `uri`, which was to be visited. The files that
    /// it is built from are not read.
    pub fn visit(&mut self, uri: &str, content: FileContent) -> (r: Result<(), Unresolved>)
        ensures
            final(self)@ == old(self)@.handled(uri@, content.deep_view()),
            final(self).process_neighbours == old(self).process_neighbours,
            old(self)@.is_sound() ==> final(self)@.is_sound(),
            match (r, old(self)@.after(uri@, content.deep_view())) {
                (Ok(_), Ok(_)) => true,
                (Err(unresolved), Err(path)) => unresolved.path@ == path,
                _ => false,
            },
    {
        match self.handle_file(uri, content) {
            Ok(_) => Ok(()),
            Err(unresolved) => Err(unresolved),
        }
    }
}

} // verus!
