use dts_lsp::edit::{apply_edits, columns_of, move_position, move_range, position_offset};
use dts_lsp::syntax::can_be_parsed;
use dts_lsp::text::{ends_with, to_chars, trim_end, trim_matches, trim_start, Trim};
use dts_lsp::types::{Position, Range, TextEdit};
use dts_lsp::utils::{extension_of_path, extension_one_of, is_header, is_source};

fn at(line: u32, character: u32) -> Position {
    Position { line, character }
}

fn on_line(line: u32, from: u32, to: u32) -> Range {
    Range { start: at(line, from), end: at(line, to) }
}

fn edit(line: u32, from: u32, to: u32, new_text: &str) -> TextEdit {
    TextEdit { range: on_line(line, from, to), new_text: new_text.to_string() }
}

#[test]
fn splits_a_text_into_characters() {
    assert_eq!(to_chars("aé\n"), vec!['a', 'é', '\n']);
    assert!(to_chars("").is_empty());
}

#[test]
fn trims_white_space() {
    assert_eq!(trim_start(" \t\n x y ", Trim::WhiteSpace), "x y ");
    assert_eq!(trim_end(" x y \u{a0}\u{3000}\r\n", Trim::WhiteSpace), " x y");
    assert_eq!(trim_start(" \u{2003} ", Trim::WhiteSpace), "");
    assert_eq!(trim_end("", Trim::WhiteSpace), "");
    assert_eq!(trim_end("x\u{200b}", Trim::WhiteSpace), "x\u{200b}");
}

#[test]
fn trims_one_character() {
    assert_eq!(trim_matches("\"\"a\"b\"", '"'), "a\"b");
    assert_eq!(trim_matches("abc", '"'), "abc");
    assert_eq!(trim_matches(">>>", '>'), "");
    assert_eq!(trim_start("<<a<", Trim::Char('<')), "a<");
    assert_eq!(trim_end("<<a<", Trim::Char('<')), "<<a");
}

#[test]
fn tells_how_a_text_ends() {
    assert!(ends_with("<a>", '>'));
    assert!(!ends_with("<a> ", '>'));
    assert!(!ends_with("", '>'));
}

#[test]
fn columns_count_bytes() {
    // c, é (two bytes), € (three bytes) and d on the second line
    let text = "ab\ncé€d\n";
    assert_eq!(position_offset(text, at(0, 0)), 0);
    assert_eq!(position_offset(text, at(1, 0)), 3);
    assert_eq!(position_offset(text, at(1, 1)), 4);
    assert_eq!(position_offset(text, at(1, 2)), 4);
    assert_eq!(position_offset(text, at(1, 3)), 5);
    assert_eq!(position_offset(text, at(1, 6)), 6);
    assert_eq!(position_offset(text, at(1, 7)), 7);
}

#[test]
fn a_position_outside_stands_for_an_end() {
    let text = "ab\ncd\n";
    assert_eq!(position_offset(text, at(0, 9)), 2);
    assert_eq!(position_offset(text, at(2, 0)), 6);
    assert_eq!(position_offset(text, at(9, 9)), 6);
    assert_eq!(position_offset("", at(0, 1)), 0);
}

#[test]
fn a_character_of_four_bytes_takes_four_columns() {
    assert_eq!(position_offset("\u{10000}x", at(0, 3)), 0);
    assert_eq!(position_offset("\u{10000}x", at(0, 4)), 1);
}

#[test]
fn counts_the_columns_of_a_text() {
    assert_eq!(columns_of(""), 0);
    assert_eq!(columns_of("aé€\u{10000}"), 10);
    assert!(can_be_parsed("aé€\u{10000}"));
}

#[test]
fn one_edit_replaces_its_range() {
    assert_eq!(apply_edits("lab: node", &vec![edit(0, 0, 3, "name")]), "name: node");
    assert_eq!(apply_edits("lab", &vec![edit(0, 3, 3, "s")]), "labs");
    assert_eq!(apply_edits("a\nb", &vec![TextEdit {
        range: Range { start: at(0, 1), end: at(1, 0) },
        new_text: " ".to_string(),
    }]), "a b");
}

#[test]
fn no_edits_leave_a_text_as_it_is() {
    assert_eq!(apply_edits("a\né", &vec![]), "a\né");
}

#[test]
fn edits_are_made_all_at_once() {
    let text = "lab: x { y = <&lab>; };\nlab;";
    let first = vec![edit(0, 0, 3, "longer"), edit(0, 15, 18, "longer"), edit(1, 0, 3, "longer")];
    let last = vec![edit(1, 0, 3, "longer"), edit(0, 15, 18, "longer"), edit(0, 0, 3, "longer")];
    let expected = "longer: x { y = <&longer>; };\nlonger;";
    assert_eq!(apply_edits(text, &first), expected);
    assert_eq!(apply_edits(text, &last), expected);
}

#[test]
fn edits_of_one_place_are_made_in_order() {
    assert_eq!(apply_edits("ab", &vec![edit(0, 1, 1, "x"), edit(0, 1, 1, "y")]), "axyb");
}

#[test]
fn edits_move_what_follows_on_the_line() {
    let edits = vec![edit(0, 0, 3, "longer"), edit(0, 15, 18, "é")];
    assert_eq!(move_position(at(0, 0), &edits), at(0, 0));
    assert_eq!(move_position(at(0, 3), &edits), at(0, 6));
    assert_eq!(move_position(at(0, 15), &edits), at(0, 18));
    assert_eq!(move_position(at(0, 18), &edits), at(0, 20));
    assert_eq!(move_position(at(1, 18), &edits), at(1, 18));
    assert_eq!(move_range(on_line(0, 15, 18), &edits), on_line(0, 18, 20));
}

#[test]
fn the_edited_text_reads_the_new_name_where_it_was_moved() {
    let text = "é lab: x { y = <&lab>; };";
    let edits = vec![edit(0, 18, 21, "ä"), edit(0, 3, 6, "longer")];
    let edited = apply_edits(text, &edits);
    assert_eq!(edited, "é longer: x { y = <&ä>; };");
    let moved = move_range(on_line(0, 18, 21), &edits);
    assert_eq!(moved, on_line(0, 21, 23));
    let from = position_offset(&edited, moved.start);
    let to = position_offset(&edited, moved.end);
    assert_eq!(to_chars(&edited)[from..to], ['ä']);
    let untouched = move_range(on_line(0, 8, 9), &edits);
    assert_eq!(untouched, on_line(0, 11, 12));
    assert_eq!(to_chars(&edited)[position_offset(&edited, untouched.start)], 'x');
}

#[test]
fn a_column_stays_in_its_range() {
    let widest = at(0, u32::MAX);
    assert_eq!(move_position(widest, &vec![edit(0, 0, 0, "x")]), widest);
    assert_eq!(move_position(at(0, 1), &vec![edit(0, 5, 1, "")]), at(0, 5));
    assert_eq!(
        move_position(at(0, 4), &vec![edit(0, 0, 4, ""), edit(0, 0, 4, "")]),
        at(0, 0)
    );
}

#[test]
fn reads_the_extension_of_a_path() {
    assert_eq!(extension_of_path("/a/b.dtsi"), Some("dtsi".to_string()));
    assert_eq!(extension_of_path("b.tar.gz"), Some("gz".to_string()));
    assert_eq!(extension_of_path("/a.b/c"), None);
    assert_eq!(extension_of_path("/a/.dts"), None);
    assert_eq!(extension_of_path("/a/b."), Some("".to_string()));
    assert_eq!(extension_of_path("/a.dts/"), None);
    assert_eq!(extension_of_path(""), None);
}

#[test]
fn reads_the_extension_of_an_address() {
    assert!(extension_one_of("file:///a/b.dts?x=y.h#z.c", &["dts"]));
    assert!(!extension_one_of("file:///a/b.dts?x=y.h#z.c", &["h", "c"]));
    assert!(!extension_one_of("/a/b.dts", &["dts"]));
    assert!(!extension_one_of("file:///a/b", &["dts"]));
    assert!(!extension_one_of("file:///a/b.dts", &[]));
}

#[test]
fn tells_which_files_are_indexed() {
    assert!(is_source("file:///a/b.dts"));
    assert!(is_source("file:///a/b.dtsi"));
    assert!(is_source("file:///a/b.h"));
    assert!(!is_source("file:///a/b.c"));
    assert!(!is_source("file:///a/b.DTS"));
    assert!(!is_source("file:///a/dts"));
    assert!(is_header("file:///a/b.h"));
    assert!(!is_header("file:///a/b.dts"));
}
