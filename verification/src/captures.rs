//! What the index takes from the matches of the queries.

use crate::includes_depot::{with_define, DefineView};
use crate::symbols::SymbolView;
use crate::syntax::{converted_range, Capture, CaptureView};
use crate::text::{
    ends_with, ends_with_char, trim_matches, trimmed_end, trimmed_matches, trimmed_start, Trim,
};
use vstd::prelude::*;
use vstd::string::*;

verus! {

/// The captures of one match that have the number `index`.
pub open spec fn nodes_for(found: Seq<CaptureView>, index: u32) -> Seq<CaptureView> {
    found.filter(|c: CaptureView| c.index == index)
}

/// The captures with the number `index` of all matches, in order.
pub open spec fn all_nodes(matches: Seq<Seq<CaptureView>>, index: u32) -> Seq<CaptureView>
    decreases matches.len(),
{
    if matches.len() == 0 {
        Seq::empty()
    } else {
        all_nodes(matches.drop_last(), index) + nodes_for(matches.last(), index)
    }
}

/// `a` and `b` side by side, as far as both go.
pub open spec fn side_by_side(a: Seq<CaptureView>, b: Seq<CaptureView>) -> Seq<
    (CaptureView, CaptureView),
> {
    Seq::new(
        if a.len() <= b.len() {
            a.len()
        } else {
            b.len()
        },
        |i: int| (a[i], b[i]),
    )
}

/// The captures 0 and 1 of each match side by side, for all matches in order.
pub open spec fn all_pairs(matches: Seq<Seq<CaptureView>>) -> Seq<(CaptureView, CaptureView)>
    decreases matches.len(),
{
    if matches.len() == 0 {
        Seq::empty()
    } else {
        all_pairs(matches.drop_last()) + side_by_side(
            nodes_for(matches.last(), 0),
            nodes_for(matches.last(), 1),
        )
    }
}

/// The symbol that a captured name is in the file `uri`.
pub open spec fn symbol_of(capture: CaptureView, uri: Seq<char>) -> SymbolView {
    SymbolView { name: capture.text, uri, range: converted_range(capture.range) }
}

/// The symbols that the matches of a query for names are in the file `uri`.
pub open spec fn symbols_of(matches: Seq<Seq<CaptureView>>, uri: Seq<char>) -> Seq<SymbolView> {
    all_nodes(matches, 0).map_values(|c: CaptureView| symbol_of(c, uri))
}

/// The macro that a captured name and a captured value are in the file `uri`.
/// White space around the value does not count.
pub open spec fn define_of(pair: (CaptureView, CaptureView), uri: Seq<char>) -> DefineView {
    DefineView {
        symbol: symbol_of(pair.0, uri),
        value: trimmed_start(trimmed_end(pair.1.text, Trim::WhiteSpace), Trim::WhiteSpace),
    }
}

/// `defines` with the macros that `pairs` are in the file `uri`, one after
/// the other.
pub open spec fn with_defines(
    defines: Seq<DefineView>,
    pairs: Seq<(CaptureView, CaptureView)>,
    uri: Seq<char>,
) -> Seq<DefineView>
    decreases pairs.len(),
{
    if pairs.len() == 0 {
        defines
    } else {
        with_define(with_defines(defines, pairs.drop_last(), uri), define_of(pairs.last(), uri))
    }
}

/// The captures of one match that have the number `index`.
pub fn nodes_for_capture_index<'a>(found: &'a Vec<Capture>, index: u32) -> (r: Vec<&'a Capture>)
    ensures
        r.deep_view() == nodes_for(found.deep_view(), index),
{
    let ghost all = found.deep_view();
    let ghost wanted = |c: CaptureView| c.index == index;
    let mut nodes: Vec<&'a Capture> = Vec::new();
    let mut k: usize = 0;
    proof {
        reveal(Seq::filter);
        assert(all.take(0).filter(wanted) =~= Seq::empty());
        assert(nodes.deep_view() =~= Seq::empty());
    }
    while k < found.len()
        invariant
            k <= found.len(),
            all == found.deep_view(),
            wanted == (|c: CaptureView| c.index == index),
            nodes.deep_view() == all.take(k as int).filter(wanted),
        decreases found.len() - k,
    {
        let capture = &found[k];
        let ghost before = nodes.deep_view();
        proof {
            assert(all.take(k + 1) =~= all.take(k as int).push(capture.deep_view()));
            all.take(k as int).lemma_filter_push(capture.deep_view(), wanted);
        }
        if capture.index == index {
            nodes.push(capture);
            assert(nodes.deep_view() =~= before.push(capture.deep_view()));
        }
        k += 1;
    }
    assert(all.take(k as int) =~= all);
    nodes
}

/// The captures with the number `index` of all matches, in order.
pub fn captured_nodes<'a>(matches: &'a Vec<Vec<Capture>>, index: u32) -> (r: Vec<&'a Capture>)
    ensures
        r.deep_view() == all_nodes(matches.deep_view(), index),
{
    let ghost all = matches.deep_view();
    let mut nodes: Vec<&'a Capture> = Vec::new();
    let mut k: usize = 0;
    assert(nodes.deep_view() =~= Seq::empty());
    while k < matches.len()
        invariant
            k <= matches.len(),
            all == matches.deep_view(),
            nodes.deep_view() == all_nodes(all.take(k as int), index),
        decreases matches.len() - k,
    {
        let ghost before = nodes.deep_view();
        let mut found = nodes_for_capture_index(&matches[k], index);
        let ghost added = found.deep_view();
        nodes.append(&mut found);
        proof {
            assert(nodes.deep_view() =~= before + added);
            assert(all.take(k + 1).drop_last() =~= all.take(k as int));
        }
        k += 1;
    }
    assert(all.take(k as int) =~= all);
    nodes
}

/// The captures 0 and 1 of each match side by side, for all matches in order.
pub fn captured_pairs<'a>(matches: &'a Vec<Vec<Capture>>) -> (r: Vec<(&'a Capture, &'a Capture)>)
    ensures
        r.deep_view() == all_pairs(matches.deep_view()),
{
    let ghost all = matches.deep_view();
    let mut pairs: Vec<(&'a Capture, &'a Capture)> = Vec::new();
    let mut k: usize = 0;
    assert(pairs.deep_view() =~= Seq::empty());
    while k < matches.len()
        invariant
            k <= matches.len(),
            all == matches.deep_view(),
            pairs.deep_view() == all_pairs(all.take(k as int)),
        decreases matches.len() - k,
    {
        let names = nodes_for_capture_index(&matches[k], 0);
        let values = nodes_for_capture_index(&matches[k], 1);
        let ghost before = pairs.deep_view();
        let ghost both = side_by_side(names.deep_view(), values.deep_view());
        let mut i: usize = 0;
        while i < names.len() && i < values.len()
            invariant
                i <= names.len(),
                i <= values.len(),
                both == side_by_side(names.deep_view(), values.deep_view()),
                pairs.deep_view() == before + both.take(i as int),
            decreases names.len() - i,
        {
            let ghost now = pairs.deep_view();
            pairs.push((names[i], values[i]));
            proof {
                assert(pairs.deep_view() =~= now.push(both[i as int]));
                assert(both.take(i + 1) =~= both.take(i as int).push(both[i as int]));
                assert(pairs.deep_view() =~= before + both.take(i + 1));
            }
            i += 1;
        }
        proof {
            assert(both.take(i as int) =~= both);
            assert(all.take(k + 1).drop_last() =~= all.take(k as int));
        }
        k += 1;
    }
    assert(all.take(k as int) =~= all);
    pairs
}

/// The path of a file that another is built from.
#[derive(PartialEq, Eq, Debug)]
pub struct IncludePath {
    /// The path without quotes or brackets.
    pub path: String,
    /// Whether it stood in angle brackets.
    pub system: bool,
}

/// What an [`IncludePath`] stands for.
pub struct IncludePathView {
    pub path: Seq<char>,
    pub system: bool,
}

impl DeepView for IncludePath {
    type V = IncludePathView;

    open spec fn deep_view(&self) -> IncludePathView {
        IncludePathView { path: self.path@, system: self.system }
    }
}

/// The path in `literal`, a text in quotes or in angle brackets.
pub open spec fn path_in(literal: Seq<char>) -> IncludePathView {
    IncludePathView {
        path: trimmed_matches(trimmed_matches(trimmed_matches(literal, '"'), '<'), '>'),
        system: ends_with_char(literal, '>'),
    }
}

/// Reads the path in `literal`, a text in quotes or in angle brackets.
pub fn read_path(literal: &str) -> (r: IncludePath)
    ensures
        r.deep_view() == path_in(literal@),
{
    let system = ends_with(literal, '>');
    let path = trim_matches(literal, '"');
    let path = trim_matches(path.as_str(), '<');
    let path = trim_matches(path.as_str(), '>');
    IncludePath { path, system }
}

} // verus!
