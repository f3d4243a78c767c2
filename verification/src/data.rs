//! The index: what is known of the files, and how a text gets into it.

use crate::captures::{
    all_nodes, all_pairs, captured_nodes, captured_pairs, path_in, read_path, symbol_of,
    symbols_of, with_defines, IncludePath, IncludePathView,
};
use crate::file_depot::{FileDepot, Files, InsertResult};
use crate::includes_depot::{DefineView, IncludesDepot};
use crate::labels_depot::LabelsDepot;
use crate::references_depot::ReferencesDepot;
use crate::symbols::{without_file, SymbolView};
use crate::syntax::{all_cover, convert_range, find_matches, matches_in, Capture, CaptureView, Query};
use crate::text::{trim_end, trim_start, Trim};
use crate::url;
use crate::utils::{is_header, is_header_uri, is_source, is_source_uri};
use vstd::prelude::*;
use vstd::string::*;

verus! {

/// What a [`Data`] stands for.
#[verifier::ext_equal]
pub struct Index {
    pub files: Files,
    pub labels: Seq<SymbolView>,
    pub references: Seq<SymbolView>,
    pub defines: Seq<DefineView>,
}

/// How a file is indexed.
#[derive(Clone, Copy, PartialEq, Eq, Structural, Debug)]
pub enum FileKind {
    /// Not at all.
    Other,
    /// For its macros.
    Header,
    /// For its macros, labels, references and paths of other files.
    Source,
}

/// How the file at `uri` is indexed.
pub open spec fn kind_of(uri: Seq<char>) -> FileKind {
    if !is_source_uri(uri) {
        FileKind::Other
    } else if is_header_uri(uri) {
        FileKind::Header
    } else {
        FileKind::Source
    }
}

/// Tells how the file at `uri` is indexed.
pub fn file_kind(uri: &str) -> (r: FileKind)
    ensures
        r == kind_of(uri@),
{
    if !is_source(uri) {
        FileKind::Other
    } else if is_header(uri) {
        FileKind::Header
    } else {
        FileKind::Source
    }
}

/// The matches of the queries in a text.
pub struct Syntax {
    pub labels: Vec<Vec<Capture>>,
    pub references: Vec<Vec<Capture>>,
    pub includes: Vec<Vec<Capture>>,
    pub defines: Vec<Vec<Capture>>,
}

/// What a [`Syntax`] stands for.
pub struct SyntaxView {
    pub labels: Seq<Seq<CaptureView>>,
    pub references: Seq<Seq<CaptureView>>,
    pub includes: Seq<Seq<CaptureView>>,
    pub defines: Seq<Seq<CaptureView>>,
}

impl View for Syntax {
    type V = SyntaxView;

    open spec fn view(&self) -> SyntaxView {
        SyntaxView {
            labels: self.labels.deep_view(),
            references: self.references.deep_view(),
            includes: self.includes.deep_view(),
            defines: self.defines.deep_view(),
        }
    }
}

/// The matches of the queries in `text`.
pub open spec fn syntax_of(text: Seq<char>) -> SyntaxView {
    SyntaxView {
        labels: matches_in(text, Query::Labels),
        references: matches_in(text, Query::References),
        includes: matches_in(text, Query::Includes),
        defines: matches_in(text, Query::Defines),
    }
}

/// Finds the matches of the queries in `text`.
pub fn read_syntax(text: &str) -> (r: Syntax)
    ensures
        r@ == syntax_of(text@),
        all_cover(text@, r@.labels),
        all_cover(text@, r@.references),
{
    Syntax {
        labels: find_matches(text, Query::Labels),
        references: find_matches(text, Query::References),
        includes: find_matches(text, Query::Includes),
        defines: find_matches(text, Query::Defines),
    }
}

/// The address of the file that a path names, given what joining the path to
/// the address of the file that it stands in gave, and what looking it up as
/// a path in angle brackets gave.
pub open spec fn chosen_target<T>(system: bool, joined: Option<T>, looked_up: Option<T>) -> Option<T> {
    if joined is None {
        None
    } else if system {
        looked_up
    } else {
        joined
    }
}

/// Chooses between the two addresses that a path may stand for.
pub fn choose_target(system: bool, joined: Option<String>, looked_up: Option<String>) -> (r: Option<
    String,
>)
    ensures
        r == chosen_target(system, joined, looked_up),
{
    match joined {
        None => None,
        Some(target) => if system {
            looked_up
        } else {
            Some(target)
        },
    }
}

impl Index {
    /// The index once `text` is the text of `uri`: what was known of the
    /// labels and references of another text is gone.
    pub open spec fn stored(self, uri: Seq<char>, text: Seq<char>) -> Index {
        let modified = self.files.insert_result(uri, text) is Modified;
        Index {
            files: self.files.inserted(uri, text),
            labels: if modified {
                without_file(self.labels, uri)
            } else {
                self.labels
            },
            references: if modified {
                without_file(self.references, uri)
            } else {
                self.references
            },
            defines: self.defines,
        }
    }

    /// The index with the labels of `uri` that `matches` hold.
    pub open spec fn with_labels(self, matches: Seq<Seq<CaptureView>>, uri: Seq<char>) -> Index {
        Index { labels: self.labels + symbols_of(matches, uri), ..self }
    }

    /// The index with the references of `uri` that `matches` hold.
    pub open spec fn with_references(
        self,
        matches: Seq<Seq<CaptureView>>,
        uri: Seq<char>,
    ) -> Index {
        Index { references: self.references + symbols_of(matches, uri), ..self }
    }

    /// The index with the macros of `uri` that `matches` hold.
    pub open spec fn with_macros(self, matches: Seq<Seq<CaptureView>>, uri: Seq<char>) -> Index {
        Index { defines: with_defines(self.defines, all_pairs(matches), uri), ..self }
    }

    /// The index with links from `uri` to `targets`.
    pub open spec fn with_links(self, uri: Seq<char>, targets: Seq<Seq<char>>) -> Index
        decreases targets.len(),
    {
        if targets.len() == 0 {
            self
        } else {
            let before = self.with_links(uri, targets.drop_last());
            Index { files: before.files.with_link(uri, targets.last()), ..before }
        }
    }

    /// The address of the file that `path` in `uri` names.
    pub open spec fn target(self, uri: Seq<char>, path: IncludePathView) -> Option<Seq<char>> {
        chosen_target(
            path.system,
            url::joined_url(uri, path.path),
            self.files.real_path(path.path),
        )
    }

    /// The addresses of the files that the paths in `matches` name, or the
    /// first path that names none.
    pub open spec fn targets(self, nodes: Seq<CaptureView>, uri: Seq<char>) -> Result<
        Seq<Seq<char>>,
        Seq<char>,
    >
        decreases nodes.len(),
    {
        if nodes.len() == 0 {
            Ok(Seq::empty())
        } else {
            match self.targets(nodes.drop_last(), uri) {
                Err(path) => Err(path),
                Ok(before) => match self.target(uri, path_in(nodes.last().text)) {
                    Some(target) => Ok(before.push(target)),
                    None => Err(path_in(nodes.last().text).path),
                },
            }
        }
    }

    /// Whether the path in `literal`, which stands in `uri`, names no file: it
    /// cannot be joined to the address of `uri`, or it is in angle brackets
    /// and cannot be looked up.
    pub open spec fn is_unresolved(self, uri: Seq<char>, literal: Seq<char>) -> bool {
        let path = path_in(literal);
        ||| url::joined_url(uri, path.path) is None
        ||| path.system && self.files.real_path(path.path) is None
    }

    /// The index once `text`, with the matches `syntax`, is the text of `uri`
    /// and `uri` is indexed as `kind` says, but for its links.
    pub open spec fn indexed(
        self,
        uri: Seq<char>,
        kind: FileKind,
        text: Seq<char>,
        syntax: SyntaxView,
    ) -> Index {
        if kind is Other || self.files.insert_result(uri, text) is Exists {
            self
        } else {
            let known = self.stored(uri, text).with_macros(syntax.defines, uri);
            if kind is Header {
                known
            } else {
                known.with_labels(syntax.labels, uri).with_references(syntax.references, uri)
            }
        }
    }

    /// Whether the links of `uri` are renewed with `text`.
    pub open spec fn is_followed(self, uri: Seq<char>, kind: FileKind, text: Seq<char>) -> bool {
        kind is Source && !(self.files.insert_result(uri, text) is Exists)
    }
}

/// The texts of the files and what stands in them.
pub struct Data {
    pub fd: FileDepot,
    pub ld: LabelsDepot,
    pub rd: ReferencesDepot,
    pub id: IncludesDepot,
}

impl View for Data {
    type V = Index;

    open spec fn view(&self) -> Index {
        Index { files: self.fd@, labels: self.ld@, references: self.rd@, defines: self.id@ }
    }
}

/// The index of no files.
pub open spec fn empty_index() -> Index {
    Index {
        files: Files { texts: Map::empty(), links: Seq::empty(), include_root: None },
        labels: Seq::empty(),
        references: Seq::empty(),
        defines: Seq::empty(),
    }
}

/// A path that names no file: it cannot be joined to the address of the file
/// that it stands in, or it stands in angle brackets and cannot be looked up.
#[derive(PartialEq, Eq, Debug)]
pub struct Unresolved {
    pub path: String,
}

/// What following the paths in a file gave.
pub open spec fn followed(r: Result<Vec<String>, Unresolved>) -> Result<
    Seq<Seq<char>>,
    Seq<char>,
> {
    match r {
        Ok(targets) => Ok(targets.deep_view()),
        Err(unresolved) => Err(unresolved.path@),
    }
}

impl Data {
    /// The index of no files.
    pub fn new() -> (r: Data)
        ensures
            r@ == empty_index(),
    {
        Data {
            fd: FileDepot::new(),
            ld: LabelsDepot::new(),
            rd: ReferencesDepot::new(),
            id: IncludesDepot::new(),
        }
    }

    /// Adds the labels of `uri` that `matches` hold.
    pub fn process_labels(&mut self, matches: &Vec<Vec<Capture>>, uri: &str)
        ensures
            final(self)@ == old(self)@.with_labels(matches.deep_view(), uri@),
    {
        let nodes = captured_nodes(matches, 0);
        let ghost all = all_nodes(matches.deep_view(), 0);
        let ghost as_symbol = |c: CaptureView| symbol_of(c, uri@);
        let mut k: usize = 0;
        assert(old(self)@.labels + all.take(0).map_values(as_symbol) =~= old(self)@.labels);
        while k < nodes.len()
            invariant
                k <= nodes.len(),
                all == nodes.deep_view(),
                as_symbol == (|c: CaptureView| symbol_of(c, uri@)),
                self@ == (Index {
                    labels: old(self)@.labels + all.take(k as int).map_values(as_symbol),
                    ..old(self)@
                }),
            decreases nodes.len() - k,
        {
            let node = nodes[k];
            self.ld.add_label(node.text.as_str(), uri, convert_range(&node.range));
            proof {
                assert(all[k as int] == node.deep_view());
                assert(all.take(k + 1).map_values(as_symbol) =~= all.take(k as int).map_values(
                    as_symbol,
                ).push(symbol_of(node.deep_view(), uri@)));
                assert(self@.labels =~= old(self)@.labels + all.take(k + 1).map_values(as_symbol));
            }
            k += 1;
        }
        assert(all.take(k as int) =~= all);
    }

    /// Adds the references of `uri` that `matches` hold.
    pub fn process_references(&mut self, matches: &Vec<Vec<Capture>>, uri: &str)
        ensures
            final(self)@ == old(self)@.with_references(matches.deep_view(), uri@),
    {
        let nodes = captured_nodes(matches, 0);
        let ghost all = all_nodes(matches.deep_view(), 0);
        let ghost as_symbol = |c: CaptureView| symbol_of(c, uri@);
        let mut k: usize = 0;
        assert(old(self)@.references + all.take(0).map_values(as_symbol)
            =~= old(self)@.references);
        while k < nodes.len()
            invariant
                k <= nodes.len(),
                all == nodes.deep_view(),
                as_symbol == (|c: CaptureView| symbol_of(c, uri@)),
                self@ == (Index {
                    references: old(self)@.references + all.take(k as int).map_values(as_symbol),
                    ..old(self)@
                }),
            decreases nodes.len() - k,
        {
            let node = nodes[k];
            self.rd.add_reference(node.text.as_str(), uri, convert_range(&node.range));
            proof {
                assert(all[k as int] == node.deep_view());
                assert(all.take(k + 1).map_values(as_symbol) =~= all.take(k as int).map_values(
                    as_symbol,
                ).push(symbol_of(node.deep_view(), uri@)));
                assert(self@.references =~= old(self)@.references + all.take(k + 1).map_values(
                    as_symbol,
                ));
            }
            k += 1;
        }
        assert(all.take(k as int) =~= all);
    }

    /// Adds the macros of `uri` that `matches` hold.
    pub fn process_defines(&mut self, matches: &Vec<Vec<Capture>>, uri: &str)
        ensures
            final(self)@ == old(self)@.with_macros(matches.deep_view(), uri@),
    {
        let pairs = captured_pairs(matches);
        let ghost all = all_pairs(matches.deep_view());
        let mut k: usize = 0;
        while k < pairs.len()
            invariant
                k <= pairs.len(),
                all == pairs.deep_view(),
                self@ == (Index {
                    defines: with_defines(old(self)@.defines, all.take(k as int), uri@),
                    ..old(self)@
                }),
            decreases pairs.len() - k,
        {
            let (name, value) = pairs[k];
            let trimmed = trim_end(value.text.as_str(), Trim::WhiteSpace);
            let trimmed = trim_start(trimmed.as_str(), Trim::WhiteSpace);
            self.id.add_define(
                name.text.as_str(),
                uri,
                convert_range(&name.range),
                trimmed.as_str(),
            );
            proof {
                assert(all[k as int] == (name.deep_view(), value.deep_view()));
                assert(all.take(k + 1).drop_last() =~= all.take(k as int));
            }
            k += 1;
        }
        assert(all.take(k as int) =~= all);
    }

    /// The address of the file that `path` in `uri` names.
    pub fn resolve(&self, uri: &str, path: &IncludePath) -> (r: Option<String>)
        ensures
            r.deep_view() == self@.target(uri@, path.deep_view()),
    {
        let joined = url::join(uri, path.path.as_str());
        let looked_up = if path.system {
            self.fd.get_real_path(path.path.as_str())
        } else {
            None
        };
        choose_target(path.system, joined, looked_up)
    }

    /// Links `uri` to each of `targets`.
    pub fn link(&mut self, uri: &str, targets: &Vec<String>)
        ensures
            final(self)@ == old(self)@.with_links(uri@, targets.deep_view()),
    {
        let ghost all = targets.deep_view();
        let mut k: usize = 0;
        while k < targets.len()
            invariant
                k <= targets.len(),
                all == targets.deep_view(),
                self@ == old(self)@.with_links(uri@, all.take(k as int)),
            decreases targets.len() - k,
        {
            self.fd.add_include(uri, targets[k].as_str());
            assert(all.take(k + 1).drop_last() =~= all.take(k as int));
            k += 1;
        }
        assert(all.take(k as int) =~= all);
    }

    /// Links `uri` to the files that the paths in `matches` name, and gives
    /// their addresses in order. Where one of the paths names no file, no
    /// link is made.
    pub fn process_includes(&mut self, matches: &Vec<Vec<Capture>>, uri: &str) -> (r: Result<
        Vec<String>,
        Unresolved,
    >)
        ensures
            followed(r) == old(self)@.targets(all_nodes(matches.deep_view(), 0), uri@),
            r is Err <==> exists|k: int|
                0 <= k < all_nodes(matches.deep_view(), 0).len() && old(self)@.is_unresolved(
                    uri@,
                    (#[trigger] all_nodes(matches.deep_view(), 0)[k]).text,
                ),
            final(self)@ == match followed(r) {
                Ok(targets) => old(self)@.with_links(uri@, targets),
                Err(_) => old(self)@,
            },
    {
        let nodes = captured_nodes(matches, 0);
        let ghost all = all_nodes(matches.deep_view(), 0);
        proof {
            lemma_unresolved(self@, all, uri@);
        }
        let mut targets: Vec<String> = Vec::new();
        let mut k: usize = 0;
        assert(targets.deep_view() =~= Seq::empty());
        while k < nodes.len()
            invariant
                k <= nodes.len(),
                all == nodes.deep_view(),
                all == all_nodes(matches.deep_view(), 0),
                self@ == old(self)@,
                self@.targets(all.take(k as int), uri@) == Ok::<Seq<Seq<char>>, Seq<char>>(
                    targets.deep_view(),
                ),
            decreases nodes.len() - k,
        {
            let path = read_path(nodes[k].text.as_str());
            let ghost before = targets.deep_view();
            proof {
                assert(all.take(k + 1).drop_last() =~= all.take(k as int));
                assert(all[k as int].text == nodes[k as int].text@);
            }
            match self.resolve(uri, &path) {
                Some(target) => {
                    targets.push(target);
                    assert(targets.deep_view() =~= before.push(target@));
                },
                None => {
                    proof {
                        lemma_targets_stop(self@, all, uri@, k + 1);
                    }
                    return Err(Unresolved { path: path.path });
                },
            }
            k += 1;
        }
        assert(all.take(k as int) =~= all);
        self.link(uri, &targets);
        Ok(targets)
    }

    /// Makes `text` the text of `uri`, and forgets the labels and references
    /// of another text.
    pub fn store(&mut self, uri: &str, text: &str) -> (r: InsertResult)
        ensures
            r == old(self)@.files.insert_result(uri@, text@),
            final(self)@ == old(self)@.stored(uri@, text@),
    {
        let result = self.fd.insert(uri, text);
        if let InsertResult::Modified = result {
            self.ld.invalidate(uri);
            self.rd.invalidate(uri);
        }
        result
    }

    /// Takes `text`, with the matches `syntax`, into the index as the text
    /// of `uri`, but for its links. Tells whether those are to be renewed.
    pub fn index_file(&mut self, uri: &str, kind: FileKind, text: &str, syntax: &Syntax) -> (r: bool)
        ensures
            r == old(self)@.is_followed(uri@, kind, text@),
            final(self)@ == old(self)@.indexed(uri@, kind, text@, syntax@),
    {
        if let FileKind::Other = kind {
            return false;
        }
        if let InsertResult::Exists = self.store(uri, text) {
            assert(self@.files.texts =~= old(self)@.files.texts);
            return false;
        }
        self.process_defines(&syntax.defines, uri);
        if let FileKind::Header = kind {
            return false;
        }
        self.process_labels(&syntax.labels, uri);
        self.process_references(&syntax.references, uri);
        true
    }
}

/// Links change nothing but the links.
pub(crate) proof fn lemma_only_links(index: Index, uri: Seq<char>, targets: Seq<Seq<char>>)
    ensures
        ({
            let linked = index.with_links(uri, targets);
            linked == (Index {
                files: Files { links: linked.files.links, ..index.files },
                ..index
            })
        }),
    decreases targets.len(),
{
    if targets.len() > 0 {
        lemma_only_links(index, uri, targets.drop_last());
    }
}

/// Following the paths of a file fails exactly where one of them names no
/// file, and then tells the first of these. Otherwise it gives the file that
/// each of them names, in order.
pub proof fn lemma_unresolved(index: Index, nodes: Seq<CaptureView>, uri: Seq<char>)
    ensures
        index.targets(nodes, uri) is Err <==> exists|k: int|
            0 <= k < nodes.len() && index.is_unresolved(uri, (#[trigger] nodes[k]).text),
        match index.targets(nodes, uri) {
            Ok(targets) => {
                &&& targets.len() == nodes.len()
                &&& forall|k: int|
                    0 <= k < nodes.len() ==> index.target(
                        uri,
                        path_in((#[trigger] nodes[k]).text),
                    ) == Some(targets[k])
            },
            Err(path) => exists|k: int|
                {
                    &&& 0 <= k < nodes.len()
                    &&& index.is_unresolved(uri, (#[trigger] nodes[k]).text)
                    &&& path == path_in(nodes[k].text).path
                    &&& index.targets(nodes.take(k), uri) is Ok
                },
        },
    decreases nodes.len(),
{
    if nodes.len() > 0 {
        let rest = nodes.drop_last();
        let last = nodes.len() - 1;
        lemma_unresolved(index, rest, uri);
        assert(nodes[last] == nodes.last());
        assert(nodes.take(last) =~= rest);
        assert forall|k: int| 0 <= k < rest.len() implies #[trigger] nodes[k] == rest[k]
            && nodes.take(k) == rest.take(k) by {
            assert(nodes.take(k) =~= rest.take(k));
        }
        match index.targets(rest, uri) {
            Err(path) => {
                let k = choose|k: int|
                    {
                        &&& 0 <= k < rest.len()
                        &&& index.is_unresolved(uri, (#[trigger] rest[k]).text)
                        &&& path == path_in(rest[k].text).path
                        &&& index.targets(rest.take(k), uri) is Ok
                    };
                assert(nodes[k] == rest[k]);
            },
            Ok(_) => {},
        }
    }
}

/// The first path that names no file decides, whatever follows it.
proof fn lemma_targets_stop(index: Index, nodes: Seq<CaptureView>, uri: Seq<char>, k: int)
    requires
        0 <= k <= nodes.len(),
        index.targets(nodes.take(k), uri) is Err,
    ensures
        index.targets(nodes, uri) == index.targets(nodes.take(k), uri),
    decreases nodes.len() - k,
{
    if k < nodes.len() {
        assert(nodes.take(k + 1).drop_last() =~= nodes.take(k));
        lemma_targets_stop(index, nodes, uri, k + 1);
    } else {
        assert(nodes.take(k) =~= nodes);
    }
}

} // verus!
