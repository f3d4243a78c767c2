//! The answers to the requests of an editor.

use crate::assoc;
use crate::captures::all_nodes;
use crate::data::{
    empty_index, file_kind, followed, kind_of, read_syntax, syntax_of, Data, FileKind, Index,
    Syntax, SyntaxView, Unresolved,
};
use crate::includes_depot::define_place;
use crate::rename::{distinct_files, edits_of, lemma_nothing_to_rename};
use crate::soundness::{lemma_covered_reads, lemma_text_keeps_sound};
use crate::symbols::places;
use crate::syntax::{convert_range, converted_range, find_node, node_in, Node, NodeView};
use crate::tracking::reads;
use crate::types::{Location, LocationView, Position, Range, TextEdit, TextEditView};
use crate::url;
use std::path::PathBuf;
use vstd::prelude::*;
use vstd::string::*;

verus! {

/// What there is to read at the address of a file.
#[derive(PartialEq, Eq, Debug)]
pub enum FileContent {
    /// The address stands for no path of the file system.
    NoPath,
    /// The file cannot be read.
    Unreadable,
    /// The text of the file.
    Text(String),
}

impl DeepView for FileContent {
    type V = Option<Seq<char>>;

    open spec fn deep_view(&self) -> Option<Seq<char>> {
        match self {
            FileContent::Text(text) => Some(text@),
            _ => None,
        }
    }
}

/// The answer to a request for a definition.
#[derive(PartialEq, Eq, Debug)]
pub enum GotoDefinitionResponse {
    /// The only place.
    Scalar(Location),
    /// Several places.
    Array(Vec<Location>),
}

/// What a [`GotoDefinitionResponse`] stands for.
pub enum DefinitionView {
    Scalar(LocationView),
    Array(Seq<LocationView>),
}

impl DeepView for GotoDefinitionResponse {
    type V = DefinitionView;

    open spec fn deep_view(&self) -> DefinitionView {
        match self {
            GotoDefinitionResponse::Scalar(place) => DefinitionView::Scalar(place.deep_view()),
            GotoDefinitionResponse::Array(all) => DefinitionView::Array(all.deep_view()),
        }
    }
}

/// Why a request is refused.
#[derive(Clone, Copy, PartialEq, Eq, Structural, Debug)]
pub enum RequestError {
    /// There is nothing at the position that the request is about.
    InvalidParams,
}

/// How the editor hands over the texts that it edits.
#[derive(Clone, Copy, PartialEq, Eq, Structural, Debug)]
pub enum TextSync {
    /// Whole, after each change.
    Full,
}

/// What the server offers to an editor.
#[derive(Clone, Copy, PartialEq, Eq, Structural, Debug)]
pub struct Capabilities {
    pub text_document_sync: TextSync,
    pub definition_provider: bool,
    pub references_provider: bool,
    /// Whether names can be changed, and whether that can be asked first.
    pub rename_provider: bool,
    pub prepare_rename: bool,
}

/// What the editor answered to the question for the server's settings.
#[derive(PartialEq, Eq, Debug)]
pub enum SettingsReply {
    /// There is no editor to ask.
    NoClient,
    /// The question failed.
    Failed,
    /// The settings for each part of the question: their names, and their
    /// values as text.
    Settings(Vec<Vec<(String, String)>>),
}

/// The directory of bindings that `reply` names, or the current one.
pub open spec fn bindings_path(reply: SettingsReply) -> Seq<char> {
    match reply {
        SettingsReply::Settings(all) => match assoc::lookup(
            all[0].deep_view(),
            "bindings_includes"@,
        ) {
            Some(path) => path,
            None => "."@,
        },
        _ => "."@,
    }
}

/// The value of the setting `name`.
fn setting(settings: &Vec<(String, String)>, name: &str) -> (r: Option<String>)
    ensures
        r.deep_view() == assoc::lookup(settings.deep_view(), name@),
{
    let ghost all = settings.deep_view();
    let mut to: usize = settings.len();
    while to > 0
        invariant
            all == settings.deep_view(),
            to <= all.len(),
            forall|j: int| to <= j < all.len() ==> (#[trigger] all[j]).0 != name@,
        decreases to,
    {
        if is_text(&settings[to - 1].0, name) {
            proof {
                assoc::lemma_found(all, name@, to - 1);
            }
            return Some(settings[to - 1].1.clone());
        }
        assert(all[to - 1].0 != name@);
        to -= 1;
    }
    proof {
        assoc::lemma_absent(all, name@);
    }
    None
}

impl Index {
    /// The definition of what `node` of `uri` names: of a label where it
    /// stands in a reference, of a macro where it is any other identifier.
    pub open spec fn definition(self, uri: Seq<char>, node: Option<NodeView>) -> Option<
        DefinitionView,
    > {
        match node {
            Some(node) => if node.kind != "identifier"@ {
                None
            } else if node.parent_kind == Some("reference"@) {
                let all = places(self.labels, self.files, uri, node.text);
                if all.len() == 0 {
                    None
                } else if all.len() == 1 {
                    Some(DefinitionView::Scalar(all[0]))
                } else {
                    Some(DefinitionView::Array(all))
                }
            } else {
                match define_place(self.defines, self.files, uri, node.text) {
                    Some(place) => Some(DefinitionView::Scalar(place)),
                    None => None,
                }
            },
            None => None,
        }
    }

    /// The places of the references to what `node` of `uri` names, where it
    /// is part of a devicetree node.
    pub open spec fn references_to(self, uri: Seq<char>, node: Option<NodeView>) -> Option<
        Seq<LocationView>,
    > {
        match node {
            Some(node) => if node.parent_kind == Some("node"@) {
                Some(places(self.references, self.files, uri, node.text))
            } else {
                None
            },
            None => None,
        }
    }

    /// The name at `node` of `uri` where it can be changed: where it is that
    /// of a label or a reference.
    pub open spec fn name_to_change(self, uri: Seq<char>, node: Option<NodeView>) -> Option<
        NodeView,
    > {
        match node {
            Some(node) => if self.name_places(uri, node.text).len() > 0 {
                Some(node)
            } else {
                None
            },
            None => None,
        }
    }

    /// The node of `uri` at `position`.
    pub open spec fn node_at(self, uri: Seq<char>, position: Position) -> Option<NodeView> {
        match self.files.text(uri) {
            Some(text) => node_in(text, position),
            None => None,
        }
    }

    /// The definition of what stands at `position` of `uri`.
    pub open spec fn definition_at(self, uri: Seq<char>, position: Position) -> Option<
        DefinitionView,
    > {
        self.definition(uri, self.node_at(uri, position))
    }

    /// The places of the references to what stands at `position` of `uri`.
    pub open spec fn references_at(self, uri: Seq<char>, position: Position) -> Option<
        Seq<LocationView>,
    > {
        self.references_to(uri, self.node_at(uri, position))
    }

    /// The range of the name at `position` of `uri`, where it can be changed.
    pub open spec fn range_to_change(self, uri: Seq<char>, position: Position) -> Result<
        Option<Range>,
        RequestError,
    > {
        if !self.files.texts.contains_key(uri) {
            Ok(None)
        } else {
            match self.name_to_change(uri, self.node_at(uri, position)) {
                Some(node) => Ok(Some(converted_range(node.range))),
                None => Err(RequestError::InvalidParams),
            }
        }
    }

    /// The edits, by file, that a change of the name at `position` of `uri`
    /// to `new_name` takes.
    pub open spec fn changes_at(
        self,
        uri: Seq<char>,
        position: Position,
        new_name: Seq<char>,
    ) -> Result<Option<Map<Seq<char>, Seq<TextEditView>>>, RequestError> {
        if !self.files.texts.contains_key(uri) {
            Ok(None)
        } else {
            match self.name_to_change(uri, self.node_at(uri, position)) {
                Some(node) => Ok(
                    Some(edits_of(self.name_places(uri, node.text), new_name)),
                ),
                None => Err(RequestError::InvalidParams),
            }
        }
    }

    /// The index once the name at `position` of `uri` is `new_name`, where it
    /// can be changed.
    pub open spec fn renamed_at(
        self,
        uri: Seq<char>,
        position: Position,
        new_name: Seq<char>,
    ) -> Index {
        if !self.files.texts.contains_key(uri) {
            self
        } else {
            match self.name_to_change(uri, self.node_at(uri, position)) {
                Some(node) => self.renamed(uri, node.text, new_name),
                None => self,
            }
        }
    }

    /// The addresses of the files that are read after `uri`, which was given
    /// `text` with the matches `syntax` and is indexed as `kind` says, or the
    /// path that names none.
    pub open spec fn next_files(
        self,
        uri: Seq<char>,
        kind: FileKind,
        text: Seq<char>,
        syntax: SyntaxView,
    ) -> Result<Seq<Seq<char>>, Seq<char>> {
        if self.is_followed(uri, kind, text) {
            self.indexed(uri, kind, text, syntax).targets(all_nodes(syntax.includes, 0), uri)
        } else {
            Ok(Seq::empty())
        }
    }

    /// The index once `uri` was given `text` with the matches `syntax` and is
    /// indexed as `kind` says.
    pub open spec fn with_text(
        self,
        uri: Seq<char>,
        kind: FileKind,
        text: Seq<char>,
        syntax: SyntaxView,
    ) -> Index {
        let known = self.indexed(uri, kind, text, syntax);
        match self.next_files(uri, kind, text, syntax) {
            Ok(targets) => known.with_links(uri, targets),
            Err(_) => known,
        }
    }

    /// The index once `content` was found at `uri`.
    pub open spec fn handled(self, uri: Seq<char>, content: Option<Seq<char>>) -> Index {
        match content {
            Some(text) => self.with_text(uri, kind_of(uri), text, syntax_of(text)),
            None => self,
        }
    }

    /// The addresses of the files that are read after `uri`, at which
    /// `content` was found, or the path that names none.
    pub open spec fn after(self, uri: Seq<char>, content: Option<Seq<char>>) -> Result<
        Seq<Seq<char>>,
        Seq<char>,
    > {
        match content {
            Some(text) => self.next_files(uri, kind_of(uri), text, syntax_of(text)),
            None => Ok(Seq::empty()),
        }
    }
}

/// The server: the index, and whether a file that is opened brings the other
/// files of its directory with it.
pub struct Backend {
    pub data: Data,
    pub process_neighbours: bool,
}

impl View for Backend {
    type V = Index;

    open spec fn view(&self) -> Index {
        self.data@
    }
}

fn is_text(s: &String, text: &str) -> (r: bool)
    ensures
        r == (s@ == text@),
{
    *s == text.to_owned()
}

fn is_some_text(s: &Option<String>, text: &str) -> (r: bool)
    ensures
        r == (s.deep_view() == Some(text@)),
{
    match s {
        Some(s) => is_text(s, text),
        None => false,
    }
}

impl Backend {
    /// A server that knows no file yet.
    pub fn new() -> (r: Backend)
        ensures
            r@ == empty_index(),
            r.process_neighbours,
    {
        Backend { data: Data::new(), process_neighbours: true }
    }

    /// What the server offers.
    pub fn initialize() -> (r: Capabilities)
        ensures
            r == (Capabilities {
                text_document_sync: TextSync::Full,
                definition_provider: true,
                references_provider: true,
                rename_provider: true,
                prepare_rename: true,
            }),
    {
        Capabilities {
            text_document_sync: TextSync::Full,
            definition_provider: true,
            references_provider: true,
            rename_provider: true,
            prepare_rename: true,
        }
    }

    /// The directory of bindings that the first settings name, or the current
    /// one. Where there are settings, there are some for the first part of
    /// the question.
    pub fn get_includes_path(reply: SettingsReply) -> (r: String)
        requires
            match reply {
                SettingsReply::Settings(all) => all.len() > 0,
                _ => true,
            },
        ensures
            r@ == match reply {
                SettingsReply::Settings(all) => match assoc::lookup(
                    all[0].deep_view(),
                    "bindings_includes"@,
                ) {
                    Some(path) => path,
                    None => "."@,
                },
                _ => "."@,
            },
            r@ == bindings_path(reply),
    {
        if let SettingsReply::Settings(all) = reply {
            if let Some(path) = setting(&all[0], "bindings_includes") {
                return path;
            }
        }
        ".".to_owned()
    }

    /// The path at which a file is to be read that is indexed as `kind` says
    /// and whose address stands for `path`.
    pub fn path_to_read(kind: FileKind, path: Option<PathBuf>) -> (r: Option<PathBuf>)
        ensures
            r == if kind is Other {
                None
            } else {
                path
            },
    {
        match kind {
            FileKind::Other => None,
            _ => path,
        }
    }

    /// The path at which the file `uri` is to be read. A file that is not
    /// indexed is not read, nor is one whose address has no rooted path. Any
    /// other is read at the path that its address stands for; which one that
    /// is, if any, depends on the system.
    pub fn file_to_read(uri: &str) -> (r: Option<PathBuf>)
        ensures
            exists|path: Option<PathBuf>| #[trigger]
                url::may_stand_for(uri, path) && r == (if kind_of(uri@) is Other {
                    None
                } else {
                    path
                }),
            r is Some ==> !(kind_of(uri@) is Other) && url::is_rooted(uri@),
    {
        Backend::path_to_read(file_kind(uri), url::asked_path(uri))
    }

    /// What there is to read at an address that stands for `path` while the
    /// editor has `text` there.
    pub fn content_at(path: Option<PathBuf>, text: String) -> (r: FileContent)
        ensures
            r == match path {
                Some(_) => FileContent::Text(text),
                None => FileContent::NoPath,
            },
    {
        match path {
            Some(_) => FileContent::Text(text),
            None => FileContent::NoPath,
        }
    }

    /// What there is to read at `uri` while the editor has `text` there: that
    /// text, unless the file is not indexed or its address stands for no
    /// path. What path a rooted address stands for, if any, depends on the
    /// system.
    pub fn given_text(uri: &str, text: String) -> (r: FileContent)
        ensures
            r == FileContent::Text(text) || r is NoPath,
            exists|path: Option<PathBuf>| #[trigger]
                url::may_stand_for(uri, path) && (r is Text <==> !(kind_of(uri@) is Other)
                    && path is Some),
            r is Text ==> !(kind_of(uri@) is Other) && url::is_rooted(uri@),
    {
        Backend::content_at(Backend::file_to_read(uri), text)
    }

    /// Takes `text`, with the matches `syntax`, into the index as the text
    /// of `uri`. Gives the addresses of the files that `uri` is built from
    /// where they may have changed.
    pub fn handle_text(&mut self, uri: &str, kind: FileKind, text: &str, syntax: &Syntax) -> (r:
        Result<Vec<String>, Unresolved>)
        ensures
            followed(r) == old(self)@.next_files(uri@, kind, text@, syntax@),
            final(self)@ == old(self)@.with_text(uri@, kind, text@, syntax@),
            final(self).process_neighbours == old(self).process_neighbours,
    {
        if self.data.index_file(uri, kind, text, syntax) {
            self.data.process_includes(&syntax.includes, uri)
        } else {
            let none: Vec<String> = Vec::new();
            assert(none.deep_view() =~= Seq::empty());
            Ok(none)
        }
    }

    /// Takes what was found at `uri` into the index. Gives the addresses of
    /// the files that are to be read next.
    pub fn handle_file(&mut self, uri: &str, content: FileContent) -> (r: Result<
        Vec<String>,
        Unresolved,
    >)
        ensures
            followed(r) == old(self)@.after(uri@, content.deep_view()),
            final(self)@ == old(self)@.handled(uri@, content.deep_view()),
            final(self).process_neighbours == old(self).process_neighbours,
            old(self)@.is_sound() ==> final(self)@.is_sound(),
    {
        let none: Vec<String> = Vec::new();
        assert(none.deep_view() =~= Seq::empty());
        let text = match content {
            FileContent::Text(text) => text,
            _ => return Ok(none),
        };
        let kind = file_kind(uri);
        if let FileKind::Other = kind {
            return Ok(none);
        }
        if let Some(known) = self.data.fd.get_text(uri) {
            if known == text {
                return Ok(none);
            }
        }
        let syntax = read_syntax(text.as_str());
        proof {
            if old(self)@.is_sound() {
                lemma_text_keeps_sound(old(self)@, uri@, kind, text@, syntax@);
            }
        }
        self.handle_text(uri, kind, text.as_str(), &syntax)
    }

    /// The definition of what `node` of `uri` names.
    pub fn definition_of(&self, uri: &str, node: &Option<Node>) -> (r: Option<
        GotoDefinitionResponse,
    >)
        ensures
            r.deep_view() == self@.definition(uri@, node.deep_view()),
    {
        match node {
            Some(node) => {
                if !is_text(&node.kind, "identifier") {
                    None
                } else if is_some_text(&node.parent_kind, "reference") {
                    let all = self.data.ld.find_label(&self.data.fd, uri, node.text.as_str());
                    match all.len() {
                        0 => None,
                        1 => {
                            assert(all.deep_view()[0] == all[0].deep_view());
                            Some(GotoDefinitionResponse::Scalar(all[0].clone()))
                        },
                        _ => Some(GotoDefinitionResponse::Array(all)),
                    }
                } else {
                    match self.data.id.find_define(&self.data.fd, uri, node.text.as_str()) {
                        Some(place) => Some(GotoDefinitionResponse::Scalar(place)),
                        None => None,
                    }
                }
            },
            None => None,
        }
    }

    /// The definition of what stands at `position` of `uri`.
    pub fn goto_definition(&self, uri: &str, position: Position) -> (r: Option<
        GotoDefinitionResponse,
    >)
        ensures
            r.deep_view() == self@.definition(uri@, self@.node_at(uri@, position)),
            r.deep_view() == self@.definition_at(uri@, position),
    {
        match self.data.fd.get_text(uri) {
            Some(text) => self.definition_of(uri, &find_node(text.as_str(), position)),
            None => None,
        }
    }

    /// The places of the references to what `node` of `uri` names.
    pub fn references_of(&self, uri: &str, node: &Option<Node>) -> (r: Option<Vec<Location>>)
        ensures
            r.deep_view() == self@.references_to(uri@, node.deep_view()),
    {
        match node {
            Some(node) => {
                if is_some_text(&node.parent_kind, "node") {
                    Some(self.data.rd.find_references(&self.data.fd, uri, node.text.as_str()))
                } else {
                    None
                }
            },
            None => None,
        }
    }

    /// The places of the references to what stands at `position` of `uri`.
    pub fn references(&self, uri: &str, position: Position) -> (r: Option<Vec<Location>>)
        ensures
            r.deep_view() == self@.references_to(uri@, self@.node_at(uri@, position)),
            r.deep_view() == self@.references_at(uri@, position),
    {
        match self.data.fd.get_text(uri) {
            Some(text) => self.references_of(uri, &find_node(text.as_str(), position)),
            None => None,
        }
    }

    /// The range of the name at `node` of `uri`, where it can be changed.
    pub fn prepare_rename_of(&self, uri: &str, node: &Option<Node>) -> (r: Result<
        Range,
        RequestError,
    >)
        ensures
            r == match self@.name_to_change(uri@, node.deep_view()) {
                Some(node) => Ok(converted_range(node.range)),
                None => Err(RequestError::InvalidParams),
            },
    {
        if let Some(node) = node {
            let labels = self.data.ld.find_label(&self.data.fd, uri, node.text.as_str());
            let references = self.data.rd.find_references(&self.data.fd, uri, node.text.as_str());
            if labels.len() > 0 || references.len() > 0 {
                return Ok(convert_range(&node.range));
            }
        }
        Err(RequestError::InvalidParams)
    }

    /// The range of the name at `position` of `uri`, where it can be changed.
    /// Nothing is known of a file without a text.
    pub fn prepare_rename(&self, uri: &str, position: Position) -> (r: Result<
        Option<Range>,
        RequestError,
    >)
        ensures
            r == if !self@.files.texts.contains_key(uri@) {
                Ok(None)
            } else {
                match self@.name_to_change(uri@, self@.node_at(uri@, position)) {
                    Some(node) => Ok(Some(converted_range(node.range))),
                    None => Err(RequestError::InvalidParams),
                }
            },
            r == self@.range_to_change(uri@, position),
            match (r, self@.node_at(uri@, position)) {
                (Ok(Some(range)), Some(node)) => reads(
                    self@.files.texts[uri@],
                    range,
                    node.text,
                ),
                _ => true,
            },
    {
        match self.data.fd.get_text(uri) {
            Some(text) => {
                let node = find_node(text.as_str(), position);
                proof {
                    if let Some(node) = &node {
                        lemma_covered_reads(text@, node.range, node.text@);
                    }
                }
                match self.prepare_rename_of(uri, &node) {
                    Ok(range) => Ok(Some(range)),
                    Err(error) => Err(error),
                }
            },
            None => Ok(None),
        }
    }

    /// Changes the name at `node` of `uri` to `new_name`, wherever it stands.
    /// Gives the edits that this took, by file.
    pub fn rename_of(&mut self, uri: &str, node: &Option<Node>, new_name: &str) -> (r: Result<
        Vec<(String, Vec<TextEdit>)>,
        RequestError,
    >)
        ensures
            final(self).process_neighbours == old(self).process_neighbours,
            match old(self)@.name_to_change(uri@, node.deep_view()) {
                Some(node) => {
                    &&& r matches Ok(changes)
                    &&& distinct_files(changes.deep_view())
                    &&& assoc::to_map(changes.deep_view()) == edits_of(
                        old(self)@.name_places(uri@, node.text),
                        new_name@,
                    )
                    &&& final(self)@ == old(self)@.renamed(uri@, node.text, new_name@)
                },
                None => {
                    &&& r == Err::<Vec<(String, Vec<TextEdit>)>, _>(RequestError::InvalidParams)
                    &&& final(self)@ == old(self)@
                },
            },
    {
        if let Some(node) = node {
            let changes = self.data.rename(uri, node.text.as_str(), new_name);
            if changes.len() > 0 {
                return Ok(changes);
            }
            proof {
                lemma_nothing_to_rename(old(self)@, uri@, node.text@, new_name@);
            }
        }
        Err(RequestError::InvalidParams)
    }

    /// Changes the name at `position` of `uri` to `new_name`, wherever it
    /// stands. Gives the edits that this took, by file. Nothing is known of a
    /// file without a text.
    pub fn rename(&mut self, uri: &str, position: Position, new_name: &str) -> (r: Result<
        Option<Vec<(String, Vec<TextEdit>)>>,
        RequestError,
    >)
        ensures
            final(self).process_neighbours == old(self).process_neighbours,
            if !old(self)@.files.texts.contains_key(uri@) {
                &&& r == Ok::<Option<Vec<(String, Vec<TextEdit>)>>, RequestError>(None)
                &&& final(self)@ == old(self)@
            } else {
                match old(self)@.name_to_change(uri@, old(self)@.node_at(uri@, position)) {
                    Some(node) => {
                        &&& r matches Ok(Some(changes))
                        &&& distinct_files(changes.deep_view())
                        &&& assoc::to_map(changes.deep_view()) == edits_of(
                            old(self)@.name_places(uri@, node.text),
                            new_name@,
                        )
                        &&& final(self)@ == old(self)@.renamed(uri@, node.text, new_name@)
                    },
                    None => {
                        &&& r == Err::<Option<Vec<(String, Vec<TextEdit>)>>, _>(
                            RequestError::InvalidParams,
                        )
                        &&& final(self)@ == old(self)@
                    },
                }
            },
            old(self)@.changes_at(uri@, position, new_name@) == match r {
                Ok(Some(changes)) => Ok(Some(assoc::to_map(changes.deep_view()))),
                Ok(None) => Ok(None),
                Err(error) => Err(error),
            },
            final(self)@ == old(self)@.renamed_at(uri@, position, new_name@),
    {
        match self.data.fd.get_text(uri) {
            Some(text) => {
                let node = find_node(text.as_str(), position);
                match self.rename_of(uri, &node, new_name) {
                    Ok(changes) => Ok(Some(changes)),
                    Err(error) => Err(error),
                }
            },
            None => Ok(None),
        }
    }
}

} // verus!
