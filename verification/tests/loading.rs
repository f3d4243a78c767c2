use dts_lsp::backend::{Backend, FileContent};
use dts_lsp::data::Unresolved;
use dts_lsp::loader::{all_addresses, directory_to_list, file_addresses, Action};
use std::path::PathBuf;

const SOURCE: &str = "file:///a/main.dts";

fn text(s: &str) -> FileContent {
    FileContent::Text(s.to_string())
}

fn follow(name: &str) -> Action {
    Action::Follow(format!("file:///a/{}", name))
}

fn visit(name: &str) -> Action {
    Action::Visit(format!("file:///a/{}", name))
}

#[test]
fn follows_the_last_path_first() {
    let mut backend = Backend::new();
    let source = "#include \"one.dtsi\"\n#include \"two.dtsi\"\n#include \"skip.c\"\n/ { };\n";
    let mut opening = backend.did_open(SOURCE, text(source)).unwrap_or_else(|_| panic!());
    assert_eq!(opening.next_action(&backend), follow("two.dtsi"));
    let found = text("#include \"deep.dtsi\"\n/ { };\n");
    backend.follow(&mut opening, "file:///a/two.dtsi", found).unwrap();
    assert_eq!(opening.next_action(&backend), follow("deep.dtsi"));
    let found = text("#include \"one.dtsi\"\n/ { };\n");
    backend.follow(&mut opening, "file:///a/deep.dtsi", found).unwrap();
    assert_eq!(opening.next_action(&backend), follow("one.dtsi"));
    backend.follow(&mut opening, "file:///a/one.dtsi", text("/ { };\n")).unwrap();
    assert_eq!(opening.next_action(&backend), follow("one.dtsi"));
    backend.follow(&mut opening, "file:///a/one.dtsi", text("/ { };\n")).unwrap();
    assert_eq!(opening.next_action(&backend), Action::List("file:///a/".to_string()));
}

#[test]
fn files_that_name_each_other_are_read_once() {
    let mut backend = Backend::new();
    let mut opening = backend
        .did_change(SOURCE, text("#include \"b.dtsi\"\n/ { };\n"))
        .unwrap_or_else(|_| panic!());
    let mut steps = 0;
    loop {
        match opening.next_action(&backend) {
            Action::Follow(uri) => {
                steps += 1;
                let other = if uri == SOURCE { "b.dtsi" } else { "main.dts" };
                let found = format!("#include \"{}\"\n/ {{ }};\n", other);
                backend.follow(&mut opening, &uri, text(&found)).unwrap();
            }
            action => {
                assert_eq!(action, Action::Done);
                break;
            }
        }
    }
    assert_eq!(steps, 2);
}

#[test]
fn visits_the_unknown_neighbours_of_an_opened_file() {
    let mut backend = Backend::new();
    backend.handle_file("file:///a/known.dts", text("/ { };\n")).unwrap();
    let mut opening = backend.did_open(SOURCE, text("/ { };\n")).unwrap_or_else(|_| panic!());
    assert_eq!(opening.next_action(&backend), Action::List("file:///a/".to_string()));
    let mut files = Vec::new();
    for name in ["known.dts", "x.dts", "read.me", "y.dtsi", "main.dts", "x.dts"] {
        files.push(format!("file:///a/{}", name));
    }
    opening.open_neighbours(files);
    assert_eq!(opening.next_action(&backend), visit("x.dts"));
    let found = text("#include \"more.dtsi\"\n/ { };\n");
    assert_eq!(backend.visit("file:///a/x.dts", found), Ok(()));
    assert_eq!(opening.next_action(&backend), visit("y.dtsi"));
    assert_eq!(backend.visit("file:///a/y.dtsi", FileContent::Unreadable), Ok(()));
    assert_eq!(opening.next_action(&backend), Action::Done);
    assert_eq!(opening.next_action(&backend), Action::Done);
}

#[test]
fn a_changed_file_brings_no_neighbours() {
    let mut backend = Backend::new();
    let mut opening = backend.did_change(SOURCE, text("/ { };\n")).unwrap_or_else(|_| panic!());
    assert_eq!(opening.next_action(&backend), Action::Done);
    backend.process_neighbours = false;
    let mut opening = backend.did_open(SOURCE, text("/ { };\n")).unwrap_or_else(|_| panic!());
    assert_eq!(opening.next_action(&backend), Action::Done);
}

#[test]
fn an_address_without_a_directory_cannot_be_listed() {
    let mut backend = Backend::new();
    let mut opening = backend
        .did_open("data:main.dts", FileContent::NoPath)
        .unwrap_or_else(|_| panic!());
    assert_eq!(opening.next_action(&backend), Action::NoDirectory);
    assert_eq!(opening.next_action(&backend), Action::Done);
}

#[test]
fn reports_paths_that_name_no_file() {
    let unresolved = || Unresolved { path: "x.h".to_string() };
    let broken = || text("#include <x.h>\n/ { };\n");
    let mut backend = Backend::new();
    assert_eq!(backend.did_open(SOURCE, broken()).err(), Some(unresolved()));
    assert_eq!(backend.did_change("file:///a/b.dts", broken()).err(), Some(unresolved()));
    assert_eq!(backend.visit("file:///a/c.dts", broken()), Err(unresolved()));
    let mut opening = backend
        .did_change(SOURCE, text("#include \"d.dtsi\"\n/ { };\n"))
        .unwrap_or_else(|_| panic!());
    let result = backend.follow(&mut opening, "file:///a/e.dtsi", broken());
    assert_eq!(result, Err(unresolved()));
    assert_eq!(opening.next_action(&backend), follow("d.dtsi"));
}

#[test]
fn turns_addresses_into_paths_and_back() {
    assert_eq!(directory_to_list("file:///a/b%20c/"), Some(PathBuf::from("/a/b c/")));
    assert_eq!(directory_to_list("http://example.org/"), None);
    assert_eq!(directory_to_list("no address"), None);
    assert_eq!(directory_to_list("data:a"), None);
    let paths = vec![PathBuf::from("/a/b c.dts"), PathBuf::from("/d.h")];
    assert_eq!(
        file_addresses(&paths),
        Some(vec!["file:///a/b%20c.dts".to_string(), "file:///d.h".to_string()])
    );
    assert_eq!(file_addresses(&vec![PathBuf::from("/d.h"), PathBuf::from("e.h")]), None);
    assert_eq!(file_addresses(&vec![]), Some(vec![]));
}

#[test]
fn each_path_gets_its_own_address() {
    let paths = vec![PathBuf::from("/a/x.dts"), PathBuf::from("/a/y.h"), PathBuf::from("/a/x.dts")];
    let files = file_addresses(&paths).unwrap();
    assert_eq!(files, vec!["file:///a/x.dts", "file:///a/y.h", "file:///a/x.dts"]);
    for (path, file) in paths.iter().zip(files.iter()) {
        assert_eq!(directory_to_list(file), Some(path.clone()));
    }
}

#[test]
fn neighbours_can_be_handed_over_one_by_one() {
    let mut backend = Backend::new();
    let mut opening = backend.did_open(SOURCE, text("/ { };\n")).unwrap_or_else(|_| panic!());
    assert_eq!(opening.next_action(&backend), Action::List("file:///a/".to_string()));
    for name in ["x.dts", "main.dts", "y.dts"] {
        opening.open_neighbours(vec![format!("file:///a/{}", name)]);
        let expected = if name == "main.dts" { Action::Done } else { visit(name) };
        assert_eq!(opening.next_action(&backend), expected);
        backend.visit(&format!("file:///a/{}", name), text("/ { };\n")).unwrap();
    }
    assert_eq!(opening.next_action(&backend), Action::Done);
}

#[test]
fn all_addresses_or_none() {
    let some = |s: &str| Some(s.to_string());
    assert_eq!(
        all_addresses(vec![some("a"), some("b")]),
        Some(vec!["a".to_string(), "b".to_string()])
    );
    assert_eq!(all_addresses(vec![some("a"), None]), None);
    assert_eq!(all_addresses(vec![]), Some(vec![]));
}

#[test]
fn what_visited_files_name_is_not_followed() {
    let mut backend = Backend::new();
    let source = "#include \"part.dtsi\"\n/ { };\n";
    let mut opening = backend.did_open(SOURCE, text(source)).unwrap_or_else(|_| panic!());
    loop {
        match opening.next_action(&backend) {
            Action::Follow(uri) => {
                let found = if uri.ends_with("part.dtsi") { "#include \"deep.h\"\n" } else { "" };
                backend.follow(&mut opening, &uri, text(found)).unwrap();
            }
            Action::Visit(uri) => {
                backend.visit(&uri, text("#include \"far.dtsi\"\n")).unwrap();
            }
            Action::List(_) => opening.open_neighbours(vec!["file:///a/next.dts".to_string()]),
            action => {
                assert_eq!(action, Action::Done);
                break;
            }
        }
    }
    for name in ["main.dts", "part.dtsi", "deep.h", "next.dts"] {
        assert!(backend.data.fd.exist(&format!("file:///a/{}", name)));
    }
    assert!(!backend.data.fd.exist("file:///a/far.dtsi"));
}
