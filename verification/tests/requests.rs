use dts_lsp::backend::{
    Backend, Capabilities, FileContent, GotoDefinitionResponse, RequestError, SettingsReply,
    TextSync,
};
use dts_lsp::data::Unresolved;
use dts_lsp::edit::apply_edits;
use dts_lsp::syntax::{find_matches, find_node, Node, NodeRange, Query};
use dts_lsp::types::{Location, Position, Range, TextEdit};
use std::path::PathBuf;

const SOURCE: &str = "file:///a/main.dts";
const PART: &str = "file:///a/part.dtsi";
const HEADER: &str = "file:///a/names.h";

fn at(line: u32, character: u32) -> Position {
    Position { line, character }
}

fn range(line: u32, from: u32, to: u32) -> Range {
    Range { start: at(line, from), end: at(line, to) }
}

fn place(uri: &str, line: u32, from: u32, to: u32) -> Location {
    Location { uri: uri.to_string(), range: range(line, from, to) }
}

fn edit(line: u32, from: u32, to: u32, new_text: &str) -> TextEdit {
    TextEdit { range: range(line, from, to), new_text: new_text.to_string() }
}

fn text(s: &str) -> FileContent {
    FileContent::Text(s.to_string())
}

fn opened(files: &[(&str, &str)]) -> Backend {
    let mut backend = Backend::new();
    for (uri, content) in files {
        backend.handle_file(uri, text(content)).unwrap();
    }
    backend
}

#[test]
fn offers_what_it_can_do() {
    assert_eq!(
        Backend::initialize(),
        Capabilities {
            text_document_sync: TextSync::Full,
            definition_provider: true,
            references_provider: true,
            rename_provider: true,
            prepare_rename: true,
        }
    );
    assert!(Backend::new().process_neighbours);
}

#[test]
fn takes_the_bindings_from_the_settings() {
    assert_eq!(Backend::get_includes_path(SettingsReply::NoClient), ".");
    assert_eq!(Backend::get_includes_path(SettingsReply::Failed), ".");
    let pair = |name: &str, value: &str| (name.to_string(), value.to_string());
    let path = |all| Backend::get_includes_path(SettingsReply::Settings(all));
    let bindings = || pair("bindings_includes", "/b");
    assert_eq!(path(vec![vec![]]), ".");
    assert_eq!(path(vec![vec![pair("other", "/a"), bindings(), pair("last", "/c")]]), "/b");
    assert_eq!(path(vec![vec![pair("other", "/a")], vec![bindings()]]), ".");
}

#[test]
fn tells_what_is_read_for_an_address() {
    assert_eq!(Backend::file_to_read(SOURCE), Some(PathBuf::from("/a/main.dts")));
    assert_eq!(Backend::file_to_read("file:///a/b%20c.h"), Some(PathBuf::from("/a/b c.h")));
    assert_eq!(Backend::file_to_read("file:///a/main.c"), None);
    assert_eq!(Backend::file_to_read("http://example.org/main.dts"), None);
    assert_eq!(Backend::file_to_read("main.dts"), None);
    assert_eq!(Backend::file_to_read("data:main.dts"), None);
}

#[test]
fn a_text_without_a_path_is_not_taken() {
    let given = "/ { };".to_string();
    assert_eq!(Backend::given_text(SOURCE, given.clone()), FileContent::Text(given.clone()));
    assert_eq!(
        Backend::given_text("http://example.org/main.dts", given.clone()),
        FileContent::NoPath
    );
    assert_eq!(Backend::given_text("file:///a/main.c", given.clone()), FileContent::NoPath);
    assert_eq!(Backend::given_text("data:main.dts", given.clone()), FileContent::NoPath);
    assert_eq!(Backend::content_at(None, given.clone()), FileContent::NoPath);
    assert_eq!(
        Backend::content_at(Some(PathBuf::from("/")), given.clone()),
        FileContent::Text(given)
    );
}

#[test]
fn finds_labels_in_a_text() {
    let found = find_matches("/ {\n\ta: b: node@0 { };\n};\n", Query::Labels);
    let mut labels = Vec::new();
    for m in &found {
        for c in m {
            labels.push((c.index, c.text.as_str(), c.range));
        }
    }
    assert_eq!(
        labels,
        vec![(0, "a", NodeRange(1, 1, 1, 2)), (0, "b", NodeRange(1, 4, 1, 5))]
    );
}

#[test]
fn finds_references_in_a_text() {
    let found = find_matches("/ { x = <&one>; };\n&two { };\n", Query::References);
    let mut references = Vec::new();
    for m in &found {
        for c in m {
            references.push((c.text.as_str(), c.range));
        }
    }
    assert_eq!(
        references,
        vec![("one", NodeRange(0, 10, 0, 13)), ("two", NodeRange(1, 1, 1, 4))]
    );
}

#[test]
fn finds_paths_in_a_text() {
    let source = "/include/ \"a.dtsi\"\n#include \"b.dtsi\"\n#include <c/d.h>\n/ { };\n";
    let found = find_matches(source, Query::Includes);
    let mut paths = Vec::new();
    for m in &found {
        for c in m {
            paths.push(c.text.as_str());
        }
    }
    assert_eq!(paths, vec!["\"a.dtsi\"", "\"b.dtsi\"", "<c/d.h>"]);
}

#[test]
fn finds_macros_in_a_text() {
    let found = find_matches("#define ONE 1\n#define TWO(x) (x + x)\n", Query::Defines);
    let mut macros = Vec::new();
    for m in &found {
        let mut captures = Vec::new();
        for c in m {
            captures.push((c.index, c.text.trim().to_string()));
        }
        macros.push(captures);
    }
    assert_eq!(
        macros,
        vec![
            vec![(0, "ONE".to_string()), (1, "1".to_string())],
            vec![(0, "TWO".to_string()), (1, "(x + x)".to_string())],
        ]
    );
}

#[test]
fn finds_the_node_at_a_position() {
    let node = find_node("/ { lab: node@0 { }; };\n", at(0, 5));
    assert_eq!(
        node,
        Some(Node {
            kind: "identifier".to_string(),
            parent_kind: Some("node".to_string()),
            text: "lab".to_string(),
            range: NodeRange(0, 4, 0, 7),
        })
    );
    let node = find_node("/ { é: x; }; &lab { };\n", at(0, 16)).unwrap();
    assert_eq!(node.text, "lab");
    assert_eq!(node.parent_kind, Some("reference".to_string()));
    assert_eq!(node.range, NodeRange(0, 15, 0, 18));
}

#[test]
fn goes_to_a_label() {
    let backend = opened(&[(SOURCE, "/ { lab: node@0 { x = <&lab>; }; };\n")]);
    assert_eq!(
        backend.goto_definition(SOURCE, at(0, 25)),
        Some(GotoDefinitionResponse::Scalar(place(SOURCE, 0, 4, 7)))
    );
    assert_eq!(backend.goto_definition(SOURCE, at(0, 5)), None);
    assert_eq!(backend.goto_definition(SOURCE, at(0, 0)), None);
    assert_eq!(backend.goto_definition("file:///a/other.dts", at(0, 25)), None);
}

#[test]
fn goes_to_several_labels() {
    let backend = opened(&[(SOURCE, "/ { lab: a { }; lab: b { }; };\n&lab { };\n&non { };\n")]);
    assert_eq!(
        backend.goto_definition(SOURCE, at(1, 2)),
        Some(GotoDefinitionResponse::Array(vec![
            place(SOURCE, 0, 4, 7),
            place(SOURCE, 0, 16, 19),
        ]))
    );
    assert_eq!(backend.goto_definition(SOURCE, at(2, 2)), None);
}

#[test]
fn goes_to_a_macro() {
    let backend = opened(&[
        (SOURCE, "#include \"names.h\"\n/ { x = <ONE>; y = <TWO>; };\n"),
        (HEADER, "#define ONE 1\n"),
    ]);
    assert_eq!(
        backend.goto_definition(SOURCE, at(1, 10)),
        Some(GotoDefinitionResponse::Scalar(place(HEADER, 0, 8, 11)))
    );
    assert_eq!(backend.goto_definition(SOURCE, at(1, 21)), None);
}

#[test]
fn answers_for_a_given_node() {
    let backend = opened(&[
        (SOURCE, "#include \"names.h\"\n/ { lab: node { }; };\n&lab { };\n"),
        (HEADER, "#define lab 1\n"),
    ]);
    let node = |kind: &str, parent: Option<&str>, name: &str| {
        Some(Node {
            kind: kind.to_string(),
            parent_kind: parent.map(|p| p.to_string()),
            text: name.to_string(),
            range: NodeRange(7, 1, 7, 4),
        })
    };
    let scalar = |p: Location| Some(GotoDefinitionResponse::Scalar(p));
    let label = place(SOURCE, 1, 4, 7);
    let name = place(HEADER, 0, 8, 11);
    let reference = place(SOURCE, 2, 1, 4);
    let definition = |n: &Option<Node>| backend.definition_of(SOURCE, n);
    assert_eq!(definition(&node("identifier", Some("reference"), "lab")), scalar(label));
    assert_eq!(definition(&node("identifier", Some("node"), "lab")), scalar(name.clone()));
    assert_eq!(definition(&node("identifier", None, "lab")), scalar(name));
    assert_eq!(definition(&node("property", Some("reference"), "lab")), None);
    assert_eq!(definition(&None), None);
    let references = |n: &Option<Node>| backend.references_of(SOURCE, n);
    assert_eq!(references(&node("identifier", Some("node"), "lab")), Some(vec![reference]));
    assert_eq!(references(&node("any", Some("node"), "non")), Some(vec![]));
    assert_eq!(references(&node("identifier", Some("reference"), "lab")), None);
    assert_eq!(references(&node("identifier", None, "lab")), None);
    assert_eq!(references(&None), None);
    assert_eq!(
        backend.prepare_rename_of(SOURCE, &node("any", None, "lab")),
        Ok(range(7, 1, 4))
    );
    assert_eq!(
        backend.prepare_rename_of(SOURCE, &node("identifier", Some("node"), "non")),
        Err(RequestError::InvalidParams)
    );
    assert_eq!(backend.prepare_rename_of(SOURCE, &None), Err(RequestError::InvalidParams));
}

#[test]
fn lists_references_to_a_label() {
    let backend = opened(&[
        (SOURCE, "#include \"part.dtsi\"\n/ { lab: node@0 { x = <&lab>; }; };\n"),
        (PART, "&lab { };\n"),
    ]);
    assert_eq!(
        backend.references(SOURCE, at(1, 5)),
        Some(vec![place(SOURCE, 1, 24, 27), place(PART, 0, 1, 4)])
    );
    assert_eq!(backend.references(SOURCE, at(1, 25)), None);
    assert_eq!(backend.references("file:///a/other.dts", at(0, 0)), None);
}

#[test]
fn announces_what_can_be_renamed() {
    let backend = opened(&[(SOURCE, "/ { lab: node@0 { x = <&lab>; }; };\n")]);
    assert_eq!(backend.prepare_rename(SOURCE, at(0, 5)), Ok(Some(range(0, 4, 7))));
    assert_eq!(backend.prepare_rename(SOURCE, at(0, 25)), Ok(Some(range(0, 24, 27))));
    assert_eq!(backend.prepare_rename(SOURCE, at(0, 18)), Err(RequestError::InvalidParams));
    assert_eq!(backend.prepare_rename("file:///a/other.dts", at(0, 5)), Ok(None));
}

#[test]
fn renames_in_all_connected_files() {
    let main = "#include \"part.dtsi\"\n/ { lab: node@0 { x = <&lab>, <&lab>; }; };\n";
    let part = "&lab { other: y { }; };\n";
    let lone = "/ { lab: z { }; };\n";
    let mut backend = opened(&[(SOURCE, main), (PART, part), ("file:///b/lone.dts", lone)]);
    let changes = backend.rename(PART, at(0, 2), "longer").unwrap().unwrap();
    assert_eq!(
        changes,
        vec![
            (
                SOURCE.to_string(),
                vec![edit(1, 4, 7, "longer"), edit(1, 24, 27, "longer"), edit(1, 32, 35, "longer")],
            ),
            (PART.to_string(), vec![edit(0, 1, 4, "longer")]),
        ]
    );
    assert_eq!(
        backend.data.fd.get_text(SOURCE),
        Some("#include \"part.dtsi\"\n/ { longer: node@0 { x = <&longer>, <&longer>; }; };\n".to_string())
    );
    assert_eq!(
        backend.data.fd.get_text(PART),
        Some("&longer { other: y { }; };\n".to_string())
    );
    assert_eq!(backend.data.fd.get_text("file:///b/lone.dts"), Some(lone.to_string()));
    // labels are moved along with labels, and references with references
    assert_eq!(
        backend.data.ld.find_label(&backend.data.fd, PART, "longer"),
        vec![place(SOURCE, 1, 4, 10)]
    );
    assert_eq!(
        backend.references(SOURCE, at(1, 5)),
        Some(vec![place(SOURCE, 1, 24, 30), place(SOURCE, 1, 35, 41), place(PART, 0, 1, 7)])
    );
    assert_eq!(
        backend.data.ld.find_label(&backend.data.fd, PART, "other"),
        vec![place(PART, 0, 7, 12)]
    );
    assert_eq!(
        backend.prepare_rename("file:///b/lone.dts", at(0, 5)),
        Ok(Some(range(0, 4, 7)))
    );
}

#[test]
fn a_renamed_label_moves_no_reference_and_no_macro() {
    let source = "#define ONE 1\n/ { a: x { }; b: y { z = <&c ONE>; }; };\n";
    let mut backend = opened(&[(SOURCE, source)]);
    let found = |backend: &Backend| {
        let label = backend.data.ld.find_label(&backend.data.fd, SOURCE, "b");
        let reference = backend.data.rd.find_references(&backend.data.fd, SOURCE, "c");
        (label, reference, backend.data.id.find_define(&backend.data.fd, SOURCE, "ONE"))
    };
    let reference = vec![place(SOURCE, 1, 27, 28)];
    let one = Some(place(SOURCE, 0, 8, 11));
    let before = (vec![place(SOURCE, 1, 14, 15)], reference.clone(), one.clone());
    assert_eq!(found(&backend), before);
    backend.rename(SOURCE, at(1, 4), "aaa").unwrap().unwrap();
    assert_eq!(found(&backend), (vec![place(SOURCE, 1, 16, 17)], reference, one));
}

#[test]
fn refuses_to_rename_what_is_no_name() {
    let source = "/ { lab: node@0 { x = <1>; }; };\n";
    let mut backend = opened(&[(SOURCE, source)]);
    assert_eq!(backend.rename(SOURCE, at(0, 18), "y"), Err(RequestError::InvalidParams));
    assert_eq!(backend.rename_of(SOURCE, &None, "y"), Err(RequestError::InvalidParams));
    assert_eq!(backend.rename("file:///a/other.dts", at(0, 5), "y"), Ok(None));
    assert_eq!(backend.data.fd.get_text(SOURCE), Some(source.to_string()));
}

#[test]
fn gives_the_files_that_a_source_is_built_from() {
    let mut backend = Backend::new();
    backend.data.fd.set_include_root("file:///usr/bindings/".to_string());
    let source = "#include \"part.dtsi\"\n#include <x/names.h>\n/ { };\n";
    assert_eq!(
        backend.handle_file(SOURCE, text(source)),
        Ok(vec![PART.to_string(), "file:///usr/bindings/x/names.h".to_string()])
    );
    assert_eq!(backend.handle_file(HEADER, text("#include \"part.dtsi\"\n")), Ok(vec![]));
}

#[test]
fn a_path_that_cannot_be_looked_up_is_an_error() {
    let mut backend = Backend::new();
    assert_eq!(
        backend.handle_file(SOURCE, text("#include <x/names.h>\n/ { };\n")),
        Err(Unresolved { path: "x/names.h".to_string() })
    );
    assert!(backend.data.fd.exist(SOURCE));
}

#[test]
fn what_cannot_be_read_changes_nothing() {
    let mut backend = opened(&[(SOURCE, "/ { lab: node { }; };\n")]);
    assert_eq!(backend.handle_file(SOURCE, FileContent::NoPath), Ok(vec![]));
    assert_eq!(backend.handle_file(SOURCE, FileContent::Unreadable), Ok(vec![]));
    assert_eq!(backend.handle_file("file:///a/main.c", text("#include \"part.dtsi\"\n")), Ok(vec![]));
    assert!(!backend.data.fd.exist("file:///a/main.c"));
    assert_eq!(backend.data.ld.find_label(&backend.data.fd, SOURCE, "lab").len(), 1);
}

#[test]
fn the_same_text_twice_changes_nothing() {
    let source = "#include \"part.dtsi\"\n/ { lab: node { }; };\n";
    let mut backend = Backend::new();
    assert_eq!(backend.handle_file(SOURCE, text(source)), Ok(vec![PART.to_string()]));
    assert_eq!(backend.handle_file(SOURCE, text(source)), Ok(vec![]));
    assert_eq!(backend.data.ld.find_label(&backend.data.fd, SOURCE, "lab").len(), 1);
}

#[test]
fn a_new_text_replaces_the_symbols_of_its_file_alone() {
    let mut backend = opened(&[
        (SOURCE, "#include \"part.dtsi\"\n/ { old: node { }; };\n&old { };\n"),
        (PART, "/ { lab: node { }; };\n"),
    ]);
    backend.handle_file(SOURCE, text("/ { new: node { }; };\n")).unwrap();
    let labels = |name: &str| backend.data.ld.find_label(&backend.data.fd, SOURCE, name);
    assert_eq!(labels("old"), vec![]);
    assert_eq!(labels("new"), vec![place(SOURCE, 0, 4, 7)]);
    assert_eq!(labels("lab"), vec![place(PART, 0, 4, 7)]);
    assert_eq!(backend.data.rd.find_references(&backend.data.fd, SOURCE, "old"), vec![]);
}

#[test]
fn connected_files_see_the_same() {
    let backend = opened(&[
        (SOURCE, "#include \"part.dtsi\"\n/ { lab: node { }; };\n"),
        (PART, "#include \"names.h\"\n&lab { };\n"),
        (HEADER, "#define ONE 1\n"),
    ]);
    for uri in [SOURCE, PART, HEADER] {
        assert_eq!(
            backend.data.ld.find_label(&backend.data.fd, uri, "lab"),
            vec![place(SOURCE, 1, 4, 7)]
        );
        assert_eq!(
            backend.data.rd.find_references(&backend.data.fd, uri, "lab"),
            vec![place(PART, 1, 1, 4)]
        );
        assert_eq!(
            backend.data.id.find_define(&backend.data.fd, uri, "ONE"),
            Some(place(HEADER, 0, 8, 11))
        );
    }
}

#[test]
fn after_a_rename_only_the_new_name_stands() {
    let mut backend = opened(&[(SOURCE, "/ { one: a { }; two: b { }; };\n&one { };\n&two { };\n")]);
    backend.rename(SOURCE, at(0, 5), "two").unwrap();
    assert_eq!(backend.data.ld.find_label(&backend.data.fd, SOURCE, "one"), vec![]);
    assert_eq!(backend.data.rd.find_references(&backend.data.fd, SOURCE, "one"), vec![]);
    assert_eq!(backend.data.ld.find_label(&backend.data.fd, SOURCE, "two").len(), 2);
    assert_eq!(backend.data.rd.find_references(&backend.data.fd, SOURCE, "two").len(), 2);
}

#[test]
fn a_rename_is_announced_where_it_succeeds() {
    let source = "/ { lab: node@0 { x = <&lab>; }; };\n";
    for column in 0..36 {
        let mut backend = opened(&[(SOURCE, source)]);
        let announced = backend.prepare_rename(SOURCE, at(0, column));
        let renamed = backend.rename(SOURCE, at(0, column), "new");
        assert_eq!(announced.is_ok(), renamed.is_ok());
        if let Ok(Some(range)) = announced {
            let read = &source[range.start.character as usize..range.end.character as usize];
            assert_eq!(read, "lab");
        }
    }
}

#[test]
fn an_editor_that_makes_the_edits_tells_nothing_new() {
    let source = "/ { é: n { }; lab: node@0 { x = <&lab>; }; };\n";
    let mut backend = opened(&[(SOURCE, source)]);
    let node = find_matches(source, Query::Labels);
    let range = node[node.len() - 1][0].range;
    let changes = backend.rename(SOURCE, at(0, range.1 as u32), "longer").unwrap().unwrap();
    assert_eq!(changes.len(), 1);
    let received = apply_edits(source, &changes[0].1);
    assert_eq!(Some(received.clone()), backend.data.fd.get_text(SOURCE));
    assert_eq!(backend.handle_file(SOURCE, text(&received)), Ok(vec![]));
    // what the index was left with is what is found in that text
    let indexed = backend.data.ld.find_label(&backend.data.fd, SOURCE, "longer");
    let fresh = opened(&[(SOURCE, &received)]);
    assert_eq!(fresh.data.ld.find_label(&fresh.data.fd, SOURCE, "longer"), indexed);
}

#[test]
fn a_macro_is_known_once() {
    let mut backend = opened(&[(SOURCE, "#define ONE 1\n/ { x = <ONE>; };\n")]);
    backend.handle_file(SOURCE, text("\n#define ONE 2\n/ { x = <ONE>; };\n")).unwrap();
    assert_eq!(
        backend.goto_definition(SOURCE, at(2, 10)),
        Some(GotoDefinitionResponse::Scalar(place(SOURCE, 1, 8, 11)))
    );
}

#[test]
fn a_rename_can_be_taken_back() {
    let found = |backend: &Backend, name: &str| {
        let mut all = backend.data.ld.find_label(&backend.data.fd, SOURCE, name);
        all.append(&mut backend.data.rd.find_references(&backend.data.fd, SOURCE, name));
        all
    };
    let take_back = |main: &str, part: &str, new_name: &str| {
        let mut backend = opened(&[(SOURCE, main), (PART, part)]);
        let lab = found(&backend, "lab");
        let other = found(&backend, "other");
        backend.rename(SOURCE, at(1, 4), new_name).unwrap().unwrap();
        assert_eq!(found(&backend, "lab"), vec![]);
        backend.rename(SOURCE, at(1, 4), "lab").unwrap().unwrap();
        assert_eq!(backend.data.fd.get_text(SOURCE), Some(main.to_string()));
        assert_eq!(backend.data.fd.get_text(PART), Some(part.to_string()));
        assert_eq!(found(&backend, "lab"), lab);
        assert_eq!(found(&backend, "other"), other);
    };
    let main = "#include \"part.dtsi\"\n/ { lab: node@0 {\nx = <&lab>, <&lab>; }; };\n";
    let part = "&lab {\nother: y { }; };\n";
    for new_name in ["x", "much_longer", "abc"] {
        take_back(main, part, new_name);
    }
    let mixed = "#include \"part.dtsi\"\n/ { lab: node@0 { x = <&lab>, <&lab>; }; };\n";
    take_back(mixed, "&lab { other: y { }; };\n", "abc");
}

#[test]
fn a_sound_index_reads_its_names_after_a_rename() {
    let source = "/ { lab: node@0 {\nx = <&lab &two &lab>; };\n two: y { }; };\n";
    let mut backend = opened(&[(SOURCE, source)]);
    backend.rename(SOURCE, at(0, 4), "longer").unwrap().unwrap();
    let now = backend.data.fd.get_text(SOURCE).unwrap();
    let lines: Vec<&str> = now.lines().collect();
    for name in ["longer", "two"] {
        let mut all = backend.data.ld.find_label(&backend.data.fd, SOURCE, name);
        all.append(&mut backend.data.rd.find_references(&backend.data.fd, SOURCE, name));
        assert!(all.len() > 1);
        for place in all {
            let range = place.range;
            let line = lines[range.start.line as usize];
            let read = &line[range.start.character as usize..range.end.character as usize];
            assert_eq!(read, name);
        }
    }
}
