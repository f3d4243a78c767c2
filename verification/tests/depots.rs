use dts_lsp::captures::{captured_nodes, captured_pairs, nodes_for_capture_index, read_path};
use dts_lsp::captures::IncludePath;
use dts_lsp::data::{choose_target, file_kind, Data, FileKind, Syntax, Unresolved};
use dts_lsp::file_depot::{FileDepot, InsertResult};
use dts_lsp::includes_depot::IncludesDepot;
use dts_lsp::labels_depot::LabelsDepot;
use dts_lsp::references_depot::ReferencesDepot;
use dts_lsp::rename::group_edits;
use dts_lsp::syntax::{convert_range, Capture, NodeRange};
use dts_lsp::types::{Location, Position, Range, TextEdit};

fn range(line: u32, from: u32, to: u32) -> Range {
    Range {
        start: Position { line, character: from },
        end: Position { line, character: to },
    }
}

fn place(uri: &str, line: u32, from: u32, to: u32) -> Location {
    Location { uri: uri.to_string(), range: range(line, from, to) }
}

fn edit(line: u32, from: u32, to: u32, new_text: &str) -> TextEdit {
    TextEdit { range: range(line, from, to), new_text: new_text.to_string() }
}

fn capture(index: u32, text: &str, column: usize) -> Capture {
    Capture {
        index,
        text: text.to_string(),
        range: NodeRange(0, column, 0, column + text.len()),
    }
}

fn includes(literals: &[&str]) -> Syntax {
    let mut matches = Vec::new();
    for literal in literals {
        matches.push(vec![capture(0, literal, 0)]);
    }
    Syntax { labels: vec![], references: vec![], includes: matches, defines: vec![] }
}

#[test]
fn tells_what_an_insert_changed() {
    let mut depot = FileDepot::new();
    assert!(!depot.exist("a"));
    assert_eq!(depot.get_text("a"), None);
    assert_eq!(depot.insert("a", "x"), InsertResult::New);
    assert_eq!(depot.insert("b", "x"), InsertResult::New);
    assert_eq!(depot.insert("a", "x"), InsertResult::Exists);
    assert_eq!(depot.insert("a", "y"), InsertResult::Modified);
    assert_eq!(depot.insert("a", "y"), InsertResult::Exists);
    assert!(depot.exist("a"));
    assert_eq!(depot.get_text("a"), Some("y".to_string()));
    assert_eq!(depot.get_text("b"), Some("x".to_string()));
}

#[test]
fn edits_reach_only_known_files() {
    let mut depot = FileDepot::new();
    depot.insert("a", "lab");
    depot.apply_edits("a", &vec![edit(0, 0, 3, "x")]);
    depot.apply_edits("b", &vec![edit(0, 0, 0, "x")]);
    assert_eq!(depot.get_text("a"), Some("x".to_string()));
    assert!(!depot.exist("b"));
}

#[test]
fn links_connect_files_both_ways() {
    let mut depot = FileDepot::new();
    depot.add_include("a", "b");
    depot.add_include("c", "b");
    depot.add_include("a", "b");
    depot.add_include("d", "e");
    let mut files = depot.get_component("c");
    files.sort();
    assert_eq!(files, vec!["a".to_string(), "b".to_string(), "c".to_string()]);
    assert_eq!(depot.get_component("z"), vec!["z".to_string()]);
    depot.add_include("b", "d");
    assert_eq!(depot.get_component("e").len(), 5);
}

#[test]
fn looks_up_paths_in_brackets() {
    let mut depot = FileDepot::new();
    assert_eq!(depot.get_real_path("a/b.h"), None);
    depot.set_include_root("file:///usr/bindings/".to_string());
    assert_eq!(
        depot.get_real_path("a/b.h"),
        Some("file:///usr/bindings/a/b.h".to_string())
    );
    depot.set_include_root("no address".to_string());
    assert_eq!(depot.get_real_path("a/b.h"), None);
}

#[test]
fn finds_labels_of_connected_files() {
    let mut depot = FileDepot::new();
    let mut labels = LabelsDepot::new();
    labels.add_label("x", "a", range(0, 0, 1));
    labels.add_label("x", "b", range(1, 0, 1));
    labels.add_label("y", "a", range(2, 0, 1));
    assert_eq!(labels.find_label(&depot, "a", "x"), vec![place("a", 0, 0, 1)]);
    depot.add_include("a", "b");
    assert_eq!(
        labels.find_label(&depot, "a", "x"),
        vec![place("a", 0, 0, 1), place("b", 1, 0, 1)]
    );
    assert_eq!(labels.find_label(&depot, "b", "x"), labels.find_label(&depot, "a", "x"));
    assert_eq!(labels.find_label(&depot, "c", "x"), vec![]);
    assert_eq!(labels.find_label(&depot, "a", "z"), vec![]);
}

#[test]
fn renames_labels_of_one_file() {
    let mut depot = FileDepot::new();
    depot.add_include("a", "b");
    let mut labels = LabelsDepot::new();
    labels.add_label("x", "a", range(0, 0, 1));
    labels.add_label("x", "b", range(1, 0, 1));
    labels.add_label("z", "a", range(0, 4, 5));
    labels.add_label("z", "b", range(1, 4, 5));
    labels.rename("a", "x", "longer");
    assert_eq!(labels.find_label(&depot, "a", "longer"), vec![place("a", 0, 0, 6)]);
    assert_eq!(labels.find_label(&depot, "a", "x"), vec![place("b", 1, 0, 1)]);
    // what follows on the line is moved
    assert_eq!(
        labels.find_label(&depot, "a", "z"),
        vec![place("a", 0, 9, 10), place("b", 1, 4, 5)]
    );
    labels.rename("a", "x", "again");
    labels.rename("a", "longer", "longer");
    assert_eq!(labels.find_label(&depot, "a", "longer"), vec![place("a", 0, 0, 6)]);
    labels.invalidate("a");
    assert_eq!(labels.find_label(&depot, "a", "longer"), vec![]);
    assert_eq!(labels.find_label(&depot, "a", "x"), vec![place("b", 1, 0, 1)]);
}

#[test]
fn keeps_references_apart_by_file() {
    let depot = FileDepot::new();
    let mut references = ReferencesDepot::new();
    references.add_reference("x", "a", range(0, 4, 5));
    references.add_reference("x", "a", range(0, 8, 9));
    references.add_reference("x", "b", range(0, 4, 5));
    assert_eq!(references.find_references(&depot, "a", "x").len(), 2);
    references.rename("a", "x", "yy");
    assert_eq!(
        references.find_references(&depot, "a", "yy"),
        vec![place("a", 0, 4, 6), place("a", 0, 9, 11)]
    );
    assert_eq!(references.find_references(&depot, "a", "x"), vec![]);
    references.invalidate("a");
    assert_eq!(references.find_references(&depot, "a", "yy"), vec![]);
    assert_eq!(references.find_references(&depot, "b", "x"), vec![place("b", 0, 4, 5)]);
}

#[test]
fn a_macro_replaces_the_one_of_its_name_in_its_file() {
    let mut depot = FileDepot::new();
    depot.add_include("a", "b");
    let mut defines = IncludesDepot::new();
    defines.add_define("X", "b", range(3, 8, 9), "1");
    defines.add_define("X", "a", range(0, 8, 9), "2");
    assert_eq!(defines.find_define(&depot, "a", "X"), Some(place("b", 3, 8, 9)));
    defines.add_define("X", "b", range(5, 8, 9), "3");
    assert_eq!(defines.find_define(&depot, "a", "X"), Some(place("b", 5, 8, 9)));
    assert_eq!(defines.find_define(&depot, "c", "X"), None);
    assert_eq!(defines.find_define(&depot, "a", "Y"), None);
}

#[test]
fn converts_ranges() {
    assert_eq!(
        convert_range(&NodeRange(1, 2, 3, 4)),
        Range {
            start: Position { line: 1, character: 2 },
            end: Position { line: 3, character: 4 },
        }
    );
}

#[test]
fn picks_captures_by_number() {
    let found = vec![capture(0, "a", 0), capture(1, "b", 2), capture(0, "c", 4)];
    let nodes = nodes_for_capture_index(&found, 0);
    assert_eq!(nodes.len(), 2);
    assert_eq!(nodes[0].text, "a");
    assert_eq!(nodes[1].text, "c");
    let matches = vec![found, vec![], vec![capture(1, "d", 6), capture(0, "e", 8)]];
    let names: Vec<&str> = captured_nodes(&matches, 0).iter().map(|c| c.text.as_str()).collect();
    assert_eq!(names, vec!["a", "c", "e"]);
    let pairs: Vec<(&str, &str)> = captured_pairs(&matches)
        .iter()
        .map(|p| (p.0.text.as_str(), p.1.text.as_str()))
        .collect();
    assert_eq!(pairs, vec![("a", "b"), ("e", "d")]);
}

#[test]
fn reads_paths_out_of_quotes_and_brackets() {
    let path = |path: &str, system: bool| IncludePath { path: path.to_string(), system };
    assert_eq!(read_path("\"a.dtsi\""), path("a.dtsi", false));
    assert_eq!(read_path("<a/b.h>"), path("a/b.h", true));
    assert_eq!(read_path("\"<a>\""), path("a", false));
    assert_eq!(read_path("\""), path("", false));
}

#[test]
fn groups_edits_by_file() {
    let all = vec![place("a", 0, 0, 1), place("b", 1, 0, 1), place("a", 2, 0, 1)];
    assert_eq!(
        group_edits(&all, "new"),
        vec![
            ("a".to_string(), vec![edit(0, 0, 1, "new"), edit(2, 0, 1, "new")]),
            ("b".to_string(), vec![edit(1, 0, 1, "new")]),
        ]
    );
    assert_eq!(group_edits(&vec![], "new"), vec![]);
}

#[test]
fn chooses_the_address_of_a_path() {
    let some = |s: &str| Some(s.to_string());
    assert_eq!(choose_target(false, some("a"), some("b")), some("a"));
    assert_eq!(choose_target(true, some("a"), some("b")), some("b"));
    assert_eq!(choose_target(true, some("a"), None), None);
    assert_eq!(choose_target(true, None, some("b")), None);
    assert_eq!(choose_target(false, None, some("b")), None);
}

#[test]
fn follows_paths_in_order() {
    let mut data = Data::new();
    data.fd.set_include_root("file:///usr/bindings/".to_string());
    let syntax = includes(&["\"../c.dtsi\"", "<x/y.h>", "\"d.dtsi\""]);
    assert_eq!(
        data.process_includes(&syntax.includes, "file:///a/b/m.dts"),
        Ok(vec![
            "file:///a/c.dtsi".to_string(),
            "file:///usr/bindings/x/y.h".to_string(),
            "file:///a/b/d.dtsi".to_string(),
        ])
    );
    assert_eq!(data.fd.get_component("file:///a/c.dtsi").len(), 4);
}

#[test]
fn a_path_that_names_no_file_links_nothing() {
    let mut data = Data::new();
    let unresolved = |path: &str| Err(Unresolved { path: path.to_string() });
    let uri = "file:///a/m.dts";
    let syntax = includes(&["\"c.dtsi\"", "<x/y.h>", "\"http://[\""]);
    assert_eq!(data.process_includes(&syntax.includes, uri), unresolved("x/y.h"));
    data.fd.set_include_root("file:///usr/bindings/".to_string());
    assert_eq!(data.process_includes(&syntax.includes, uri), unresolved("http://["));
    let syntax = includes(&["<http://[>"]);
    assert_eq!(data.process_includes(&syntax.includes, uri), unresolved("http://["));
    assert_eq!(data.fd.get_component(uri), vec![uri.to_string()]);
}

#[test]
fn tells_how_a_file_is_indexed() {
    assert_eq!(file_kind("file:///a.dts"), FileKind::Source);
    assert_eq!(file_kind("file:///a.dtsi"), FileKind::Source);
    assert_eq!(file_kind("file:///a.h"), FileKind::Header);
    assert_eq!(file_kind("file:///a.txt"), FileKind::Other);
    assert_eq!(file_kind("a.dts"), FileKind::Other);
}

#[test]
fn indexes_what_the_matches_hold() {
    let mut data = Data::new();
    let syntax = Syntax {
        labels: vec![vec![capture(0, "lab", 0)]],
        references: vec![vec![capture(0, "ref", 4)], vec![capture(0, "ref", 9)]],
        includes: vec![],
        defines: vec![vec![capture(0, "X", 8), capture(1, " 1 \n", 9)]],
    };
    assert!(data.index_file("file:///a.dts", FileKind::Source, "text", &syntax));
    assert!(!data.index_file("file:///a.dts", FileKind::Source, "text", &syntax));
    assert_eq!(data.ld.find_label(&data.fd, "file:///a.dts", "lab").len(), 1);
    assert_eq!(data.rd.find_references(&data.fd, "file:///a.dts", "ref").len(), 2);
    assert_eq!(
        data.id.find_define(&data.fd, "file:///a.dts", "X"),
        Some(place("file:///a.dts", 0, 8, 9))
    );
    assert!(!data.index_file("file:///a.h", FileKind::Header, "text", &syntax));
    assert_eq!(data.ld.find_label(&data.fd, "file:///a.h", "lab"), vec![]);
    assert_eq!(
        data.id.find_define(&data.fd, "file:///a.h", "X"),
        Some(place("file:///a.h", 0, 8, 9))
    );
    assert!(!data.index_file("file:///a.c", FileKind::Other, "text", &syntax));
    assert!(!data.fd.exist("file:///a.c"));
}
