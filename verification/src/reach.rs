//! What is reached by following the paths in the sources.

use crate::captures::all_nodes;
use crate::data::{kind_of, syntax_of, Index};
use crate::laws::{lemma_after_text, lemma_other_files_kept, lemma_what_is_read};
use crate::loader::{indexed_last, ActionView, OpeningView};
use crate::syntax::CaptureView;
use vstd::prelude::*;

verus! {

impl Index {
    /// The addresses of the files that the source `uri` names in its text.
    /// There are none where one of its paths names no file.
    pub open spec fn names_in(self, uri: Seq<char>) -> Seq<Seq<char>> {
        match self.files.text(uri) {
            Some(text) => if kind_of(uri) is Source {
                match self.targets(all_nodes(syntax_of(text).includes, 0), uri) {
                    Ok(targets) => targets,
                    Err(_) => Seq::empty(),
                }
            } else {
                Seq::empty()
            },
            None => Seq::empty(),
        }
    }

    /// Whether there is nothing to be learned of `file`: it has a text, it
    /// cannot be read from `disk`, or it is not indexed.
    pub open spec fn is_settled(
        self,
        disk: Map<Seq<char>, Seq<char>>,
        file: Seq<char>,
    ) -> bool {
        ||| self.files.texts.contains_key(file)
        ||| !disk.contains_key(file)
        ||| kind_of(file) is Other
    }

    /// Whether each file that a source names is settled or among `pending`.
    /// The sources in `visited` do not count.
    pub open spec fn is_followed_up(
        self,
        disk: Map<Seq<char>, Seq<char>>,
        pending: Seq<Seq<char>>,
        visited: Set<Seq<char>>,
    ) -> bool {
        forall|uri: Seq<char>, k: int|
            0 <= k < self.names_in(uri).len() && !visited.contains(uri) ==> {
                let file = #[trigger] self.names_in(uri)[k];
                self.is_settled(disk, file) || pending.contains(file)
            }
    }
}

/// What there is to read at `uri`.
pub open spec fn found_at(disk: Map<Seq<char>, Seq<char>>, uri: Seq<char>) -> Option<Seq<char>> {
    if disk.contains_key(uri) {
        Some(disk[uri])
    } else {
        None
    }
}

/// A point in the reading of what belongs to an opened file.
pub struct Reading {
    pub index: Index,
    pub opening: OpeningView,
    /// The files that were visited so far.
    pub visited: Set<Seq<char>>,
}

impl Reading {
    /// The point after the next action, where `disk` holds the files that can
    /// be read.
    pub open spec fn next(self, disk: Map<Seq<char>, Seq<char>>) -> Reading {
        let rest = self.opening.rest(self.index);
        match self.opening.action(self.index) {
            ActionView::Follow(uri) => {
                let content = found_at(disk, uri);
                Reading {
                    index: self.index.handled(uri, content),
                    opening: match self.index.after(uri, content) {
                        Ok(targets) => OpeningView { pending: rest.pending + targets, ..rest },
                        Err(_) => rest,
                    },
                    visited: self.visited,
                }
            },
            ActionView::Visit(uri) => Reading {
                index: self.index.handled(uri, found_at(disk, uri)),
                opening: rest,
                visited: self.visited.insert(uri),
            },
            _ => Reading { opening: rest, ..self },
        }
    }

    /// The point after files of the directory were handed over.
    pub open spec fn with_neighbours(self, files: Seq<Seq<char>>) -> Reading {
        Reading { opening: OpeningView { neighbours: files, ..self.opening }, ..self }
    }

    /// Whether each file that a source names, but for those that were only
    /// visited, is settled or pending.
    pub open spec fn is_followed_up(self, disk: Map<Seq<char>, Seq<char>>) -> bool {
        self.index.is_followed_up(disk, self.opening.pending, self.visited)
    }
}

/// Whether each of `run` is the point after the one before it: an action was
/// performed, or files of the directory were handed over.
pub open spec fn is_run(run: Seq<Reading>, disk: Map<Seq<char>, Seq<char>>) -> bool {
    &&& run.len() > 0
    &&& forall|i: int|
        0 <= i < run.len() - 1 ==> {
            ||| run[i + 1] == (#[trigger] run[i]).next(disk)
            ||| run[i + 1] == run[i].with_neighbours(run[i + 1].opening.neighbours)
        }
}

/// Which file a path names depends on no file of the index.
proof fn lemma_same_targets(a: Index, b: Index, nodes: Seq<CaptureView>, uri: Seq<char>)
    requires
        a.files.include_root == b.files.include_root,
    ensures
        a.targets(nodes, uri) == b.targets(nodes, uri),
    decreases nodes.len(),
{
    if nodes.len() > 0 {
        lemma_same_targets(a, b, nodes.drop_last(), uri);
    }
}

/// What the files name once `content` was found at `uri`.
proof fn lemma_names_after(
    index: Index,
    uri: Seq<char>,
    content: Option<Seq<char>>,
    file: Seq<char>,
)
    ensures
        ({
            let after = index.handled(uri, content);
            &&& file != uri ==> after.names_in(file) == index.names_in(file)
            &&& after.names_in(uri) == index.names_in(uri) || match index.after(uri, content) {
                Ok(targets) => after.names_in(uri) == targets,
                Err(_) => after.names_in(uri).len() == 0,
            }
            &&& index.files.texts.contains_key(file) ==> after.files.texts.contains_key(file)
            &&& content is Some && !(kind_of(uri) is Other) ==> after.files.texts.contains_key(uri)
        }),
{
    let after = index.handled(uri, content);
    if file != uri {
        lemma_other_files_kept(index, uri, content, file);
        assert(after.files.text(file) == index.files.text(file));
    }
    if let Some(text) = content {
        let kind = kind_of(uri);
        let syntax = syntax_of(text);
        let known = index.indexed(uri, kind, text, syntax);
        lemma_after_text(index, uri, kind, text, syntax);
        assert(after.files.include_root == index.files.include_root);
        if let Some(other) = index.files.text(file) {
            lemma_same_targets(after, index, all_nodes(syntax_of(other).includes, 0), file);
        }
        lemma_same_targets(after, known, all_nodes(syntax.includes, 0), uri);
    }
}

/// A file that is pending is followed, is still pending afterwards, or is not
/// indexed.
proof fn lemma_pending_after(opening: OpeningView, index: Index, file: Seq<char>)
    requires
        opening.pending.contains(file),
        !(kind_of(file) is Other),
    ensures
        opening.action(index) == ActionView::Follow(file) || opening.rest(
            index,
        ).pending.contains(file),
{
    lemma_kept_pending(opening.pending, file);
    let left = indexed_last(opening.pending);
    let k = choose|k: int| 0 <= k < left.len() && left[k] == file;
    if k < left.len() - 1 {
        assert(left.drop_last()[k] == file);
    }
}

proof fn lemma_kept_pending(pending: Seq<Seq<char>>, file: Seq<char>)
    requires
        pending.contains(file),
        !(kind_of(file) is Other),
    ensures
        indexed_last(pending).contains(file),
    decreases pending.len(),
{
    let k = choose|k: int| 0 <= k < pending.len() && pending[k] == file;
    if kind_of(pending.last()) is Other {
        assert(pending.drop_last()[k] == file);
        lemma_kept_pending(pending.drop_last(), file);
    }
}

/// Opening or changing a file keeps what sources name settled or pending.
pub proof fn lemma_starts_followed_up(
    index: Index,
    uri: Seq<char>,
    content: Option<Seq<char>>,
    disk: Map<Seq<char>, Seq<char>>,
    visited: Set<Seq<char>>,
)
    requires
        index.is_followed_up(disk, Seq::empty(), visited),
    ensures
        match index.after(uri, content) {
            Ok(targets) => index.handled(uri, content).is_followed_up(
                disk,
                targets,
                visited,
            ),
            Err(_) => index.handled(uri, content).is_followed_up(
                disk,
                Seq::empty(),
                visited,
            ),
        },
{
    let after = index.handled(uri, content);
    let pending = match index.after(uri, content) {
        Ok(targets) => targets,
        Err(_) => Seq::empty(),
    };
    assert forall|other: Seq<char>, k: int|
        0 <= k < after.names_in(other).len() && !visited.contains(other) implies {
        let file = #[trigger] after.names_in(other)[k];
        after.is_settled(disk, file) || pending.contains(file)
    } by {
        let file = after.names_in(other)[k];
        lemma_names_after(index, uri, content, other);
        if after.names_in(other) == index.names_in(other) {
            assert(index.names_in(other)[k] == file);
            assert(index.is_settled(disk, file));
            lemma_names_after(index, uri, content, file);
        }
    }
}

/// Each action keeps what sources name settled or pending.
proof fn lemma_step_followed_up(
    reading: Reading,
    disk: Map<Seq<char>, Seq<char>>,
)
    requires
        reading.is_followed_up(disk),
    ensures
        reading.next(disk).is_followed_up(disk),
{
    let index = reading.index;
    let next = reading.next(disk);
    let action = reading.opening.action(index);
    lemma_what_is_read(reading.opening, index);
    assert forall|other: Seq<char>, k: int|
        0 <= k < next.index.names_in(other).len() && !next.visited.contains(other) implies {
        let file = #[trigger] next.index.names_in(other)[k];
        next.index.is_settled(disk, file) || next.opening.pending.contains(file)
    } by {
        let file = next.index.names_in(other)[k];
        let rest = reading.opening.rest(index).pending;
        if let ActionView::Follow(uri) = action {
            let content = found_at(disk, uri);
            lemma_names_after(index, uri, content, other);
            lemma_names_after(index, uri, content, file);
            if next.index.names_in(other) == index.names_in(other) {
                assert(index.names_in(other)[k] == file);
                if !next.index.is_settled(disk, file) {
                    assert(reading.opening.pending.contains(file));
                    lemma_pending_after(reading.opening, index, file);
                    let at = choose|at: int| 0 <= at < rest.len() && rest[at] == file;
                    assert(next.opening.pending[at] == file);
                }
            } else if let Ok(targets) = index.after(uri, content) {
                assert(next.opening.pending[rest.len() + k] == file);
            }
        } else {
            if let ActionView::Visit(uri) = action {
                lemma_names_after(index, uri, found_at(disk, uri), other);
                lemma_names_after(index, uri, found_at(disk, uri), file);
            }
            assert(index.names_in(other)[k] == file);
            if !next.index.is_settled(disk, file) {
                assert(reading.opening.pending.contains(file));
                lemma_pending_after(reading.opening, index, file);
            }
        }
    }
}

proof fn lemma_run_followed_up(
    run: Seq<Reading>,
    disk: Map<Seq<char>, Seq<char>>,
    i: int,
)
    requires
        is_run(run, disk),
        run[0].is_followed_up(disk),
        0 <= i < run.len(),
    ensures
        run[i].is_followed_up(disk),
    decreases i,
{
    if i > 0 {
        lemma_run_followed_up(run, disk, i - 1);
        let before = run[i - 1];
        assert(run[(i - 1) + 1] == before.next(disk) || run[(i - 1) + 1]
            == before.with_neighbours(run[i].opening.neighbours));
        lemma_step_followed_up(before, disk);
    }
}

/// While the files that can be read stay as they are: where at the start each
/// file that a source names is settled or pending, then once no file is left
/// to be followed, be it that nothing at all is left to be done, each file
/// that a source names is settled. Sources that were only visited, as files
/// of a directory, do not count: what they name is not followed.
pub proof fn lemma_all_reached(
    run: Seq<Reading>,
    disk: Map<Seq<char>, Seq<char>>,
)
    requires
        is_run(run, disk),
        run[0].is_followed_up(disk),
        !(run.last().opening.action(run.last().index) is Follow),
    ensures
        run.last().index.is_followed_up(disk, Seq::empty(), run.last().visited),
{
    let end = run.last();
    lemma_run_followed_up(run, disk, run.len() - 1);
    assert forall|uri: Seq<char>, k: int|
        0 <= k < end.index.names_in(uri).len() && !end.visited.contains(uri) implies {
        let file = #[trigger] end.index.names_in(uri)[k];
        end.index.is_settled(disk, file) || Seq::<Seq<char>>::empty().contains(file)
    } by {
        let file = end.index.names_in(uri)[k];
        if !end.index.is_settled(disk, file) {
            assert(end.opening.pending.contains(file));
            lemma_pending_after(end.opening, end.index, file);
        }
    }
}

/// Whether each of `chain` is named by the one before it, and can be read and
/// is indexed. All but the last are not among `visited`.
pub open spec fn is_chain(
    index: Index,
    disk: Map<Seq<char>, Seq<char>>,
    visited: Set<Seq<char>>,
    chain: Seq<Seq<char>>,
) -> bool {
    forall|i: int|
        0 <= i < chain.len() - 1 ==> {
            &&& index.names_in(#[trigger] chain[i]).contains(chain[i + 1])
            &&& disk.contains_key(chain[i + 1])
            &&& !(kind_of(chain[i + 1]) is Other)
            &&& !visited.contains(chain[i])
        }
}

/// Where all files that sources name are settled, each file that can be
/// reached from a stored one, from name to name, is stored.
pub proof fn lemma_reachable_is_stored(
    index: Index,
    disk: Map<Seq<char>, Seq<char>>,
    visited: Set<Seq<char>>,
    chain: Seq<Seq<char>>,
)
    requires
        index.is_followed_up(disk, Seq::empty(), visited),
        is_chain(index, disk, visited, chain),
        chain.len() > 0,
        index.files.texts.contains_key(chain[0]),
    ensures
        index.files.texts.contains_key(chain.last()),
{
    if chain.len() > 1 {
        let i = chain.len() - 2;
        let names = index.names_in(chain[i]);
        assert(names.contains(chain[i + 1]));
        let k = choose|k: int| 0 <= k < names.len() && names[k] == chain[i + 1];
        assert(index.is_settled(disk, index.names_in(chain[i])[k]));
    }
}

} // verus!
