//! The texts of the files, and the links from each file to those that it is
//! built from.

use crate::assoc;
use crate::edit;
use crate::graph;
use crate::types::TextEdit;
use crate::url;
use vstd::prelude::*;
use vstd::string::*;

verus! {

/// What became of a text that was handed to [`FileDepot::insert`].
#[derive(Clone, Copy, PartialEq, Eq, Structural, Debug)]
pub enum InsertResult {
    /// The file had no text yet.
    New,
    /// The file already had this text.
    Exists,
    /// The file had another text.
    Modified,
}

/// What a [`FileDepot`] stands for.
#[verifier::ext_equal]
pub struct Files {
    /// The text of each file.
    pub texts: Map<Seq<char>, Seq<char>>,
    /// The links: a file, and a file that it is built from.
    pub links: Seq<(Seq<char>, Seq<char>)>,
    /// The directory that paths in angle brackets are looked up in.
    pub include_root: Option<Seq<char>>,
}

impl Files {
    /// What becomes of `text` as the text of `uri`.
    pub open spec fn insert_result(self, uri: Seq<char>, text: Seq<char>) -> InsertResult {
        if !self.texts.contains_key(uri) {
            InsertResult::New
        } else if self.texts[uri] == text {
            InsertResult::Exists
        } else {
            InsertResult::Modified
        }
    }

    /// The text of `uri`.
    pub open spec fn text(self, uri: Seq<char>) -> Option<Seq<char>> {
        if self.texts.contains_key(uri) {
            Some(self.texts[uri])
        } else {
            None
        }
    }

    /// The files once `text` is the text of `uri`.
    pub open spec fn inserted(self, uri: Seq<char>, text: Seq<char>) -> Files {
        Files { texts: self.texts.insert(uri, text), ..self }
    }

    /// The files once `uri` is known to be built from `target`.
    pub open spec fn with_link(self, uri: Seq<char>, target: Seq<char>) -> Files {
        if self.links.contains((uri, target)) {
            self
        } else {
            Files { links: self.links.push((uri, target)), ..self }
        }
    }

    /// The address of the file that `path` names in angle brackets.
    pub open spec fn real_path(self, path: Seq<char>) -> Option<Seq<char>> {
        match self.include_root {
            Some(root) => url::joined_url(root, path),
            None => None,
        }
    }

    /// Whether links lead from `a` to `b`, in either direction.
    pub open spec fn connects(self, a: Seq<char>, b: Seq<char>) -> bool {
        graph::connected(self.links, a, b)
    }
}

/// The texts of the files and the links between them.
pub struct FileDepot {
    files: Vec<(String, String)>,
    links: Vec<(String, String)>,
    include_root: Option<String>,
}

impl View for FileDepot {
    type V = Files;

    closed spec fn view(&self) -> Files {
        Files {
            texts: assoc::to_map(self.files.deep_view()),
            links: self.links.deep_view(),
            include_root: self.include_root.deep_view(),
        }
    }
}

impl FileDepot {
    /// A depot without files.
    pub fn new() -> (r: FileDepot)
        ensures
            r@.texts == Map::<Seq<char>, Seq<char>>::empty(),
            r@.links == Seq::<(Seq<char>, Seq<char>)>::empty(),
            r@.include_root is None,
    {
        let r = FileDepot { files: Vec::new(), links: Vec::new(), include_root: None };
        assert(r@.texts =~= Map::empty());
        assert(r@.links =~= Seq::empty());
        r
    }

    /// Sets the directory that paths in angle brackets are looked up in. As
    /// the base of a join, its address ends with a slash.
    pub fn set_include_root(&mut self, root: String)
        ensures
            final(self)@ == (Files { include_root: Some(root@), ..old(self)@ }),
    {
        self.include_root = Some(root);
    }

    /// The place of the last entry for `uri`.
    fn find(&self, uri: &String) -> (r: Option<usize>)
        ensures
            match r {
                Some(at) => {
                    let files = self.files.deep_view();
                    &&& at < files.len()
                    &&& files[at as int].0 == uri@
                    &&& forall|j: int| at < j < files.len() ==> (#[trigger] files[j]).0 != uri@
                    &&& self@.text(uri@) == Some(files[at as int].1)
                },
                None => self@.text(uri@) is None,
            },
    {
        let ghost files = self.files.deep_view();
        let mut to: usize = self.files.len();
        while to > 0
            invariant
                files == self.files.deep_view(),
                to <= files.len(),
                forall|j: int| to <= j < files.len() ==> (#[trigger] files[j]).0 != uri@,
            decreases to,
        {
            if self.files[to - 1].0 == *uri {
                proof {
                    assoc::lemma_found(files, uri@, to - 1);
                }
                return Some(to - 1);
            }
            assert(files[to - 1].0 != uri@);
            to -= 1;
        }
        proof {
            assoc::lemma_absent(files, uri@);
        }
        None
    }

    /// Tells whether `uri` has a text.
    pub fn exist(&self, uri: &str) -> (r: bool)
        ensures
            r == self@.texts.contains_key(uri@),
    {
        self.find(&uri.to_owned()).is_some()
    }

    /// The text of `uri`.
    pub fn get_text(&self, uri: &str) -> (r: Option<String>)
        ensures
            r.deep_view() == self@.text(uri@),
    {
        match self.find(&uri.to_owned()) {
            Some(at) => Some(self.files[at].1.clone()),
            None => None,
        }
    }

    fn set_text(&mut self, at: usize, text: String)
        requires
            at < old(self).files.len(),
            forall|j: int|
                at < j < old(self).files.len() ==> (#[trigger] old(self).files.deep_view()[j]).0
                    != old(self).files.deep_view()[at as int].0,
        ensures
            final(self)@ == old(self)@.inserted(
                old(self).files.deep_view()[at as int].0,
                text@,
            ),
    {
        let ghost files = self.files.deep_view();
        let uri = self.files[at].0.clone();
        self.files.set(at, (uri, text));
        proof {
            assoc::lemma_update(files, at as int, text@);
            assert(self.files.deep_view() =~= files.update(at as int, (files[at as int].0, text@)));
        }
    }

    /// Makes `text` the text of `uri`, and tells what that changed.
    pub fn insert(&mut self, uri: &str, text: &str) -> (r: InsertResult)
        ensures
            r == old(self)@.insert_result(uri@, text@),
            final(self)@ == old(self)@.inserted(uri@, text@),
    {
        let key = uri.to_owned();
        let text = text.to_owned();
        match self.find(&key) {
            Some(at) => {
                if self.files[at].1 == text {
                    assert(self@.texts =~= self@.texts.insert(uri@, text@));
                    InsertResult::Exists
                } else {
                    self.set_text(at, text);
                    InsertResult::Modified
                }
            },
            None => {
                let ghost files = self.files.deep_view();
                self.files.push((key, text));
                proof {
                    assoc::lemma_push(files, uri@, text@);
                    assert(self.files.deep_view() =~= files.push((uri@, text@)));
                }
                InsertResult::New
            },
        }
    }

    /// Records that `uri` is built from `target`.
    pub fn add_include(&mut self, uri: &str, target: &str)
        ensures
            final(self)@ == old(self)@.with_link(uri@, target@),
    {
        let from = uri.to_owned();
        let to = target.to_owned();
        let ghost links = self.links.deep_view();
        let mut k: usize = 0;
        while k < self.links.len()
            invariant
                *self == *old(self),
                links == self.links.deep_view(),
                k <= links.len(),
                from@ == uri@,
                to@ == target@,
                forall|j: int| 0 <= j < k ==> (#[trigger] links[j]) != (uri@, target@),
            decreases links.len() - k,
        {
            if self.links[k].0 == from && self.links[k].1 == to {
                assert(links[k as int] == (uri@, target@));
                return;
            }
            assert(links[k as int] != (uri@, target@));
            k += 1;
        }
        self.links.push((from, to));
        assert(self.links.deep_view() =~= links.push((uri@, target@)));
    }

    /// The address of the file that `path` names in angle brackets.
    pub fn get_real_path(&self, path: &str) -> (r: Option<String>)
        ensures
            r.deep_view() == self@.real_path(path@),
    {
        match &self.include_root {
            Some(root) => url::join(root.as_str(), path),
            None => None,
        }
    }

    /// The files that are connected with `uri` by links, `uri` among them.
    pub fn get_component(&self, uri: &str) -> (r: Vec<String>)
        ensures
            r.deep_view().no_duplicates(),
            forall|file: Seq<char>| #[trigger]
                r.deep_view().contains(file) <==> self@.connects(uri@, file),
    {
        graph::component(&self.links, uri)
    }

    /// Applies `edits` to the text of `uri`.
    pub fn apply_edits(&mut self, uri: &str, edits: &Vec<TextEdit>)
        ensures
            final(self)@ == match old(self)@.text(uri@) {
                Some(text) => old(self)@.inserted(uri@, edit::edited(text, edits.deep_view())),
                None => old(self)@,
            },
    {
        if let Some(at) = self.find(&uri.to_owned()) {
            let text = edit::apply_edits(self.files[at].1.as_str(), edits);
            self.set_text(at, text);
        }
    }
}

} // verus!
