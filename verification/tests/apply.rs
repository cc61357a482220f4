//! Positions, edits and workspace edits.

use lsp4a::apply::{
    apply_text_edits, line_starts, position_to_byte_offset, try_apply_text_edits, Position, Range,
    TextEdit,
};
use lsp4a::json::{parse_json, show_json, Json};
use lsp4a::render::{render_rename_result, RenameRequest};
use lsp4a::summary::{summarize_workspace_edit, FileChange};
use lsp4a::workspace::{apply_workspace_edit, changed_files, collect_text_edits, FileEdits};

fn at(line: usize, character: usize) -> Position {
    Position { line, character }
}

fn edit(start: Position, end: Position, new_text: &str) -> TextEdit {
    TextEdit { range: Range { start, end }, new_text: new_text.to_string() }
}

fn offset(text: &str, line: usize, character: usize) -> usize {
    position_to_byte_offset(text, &line_starts(text), &at(line, character))
}

fn json(text: &str) -> Json {
    parse_json(text.as_bytes()).unwrap()
}

fn refusal(text: &str) -> String {
    collect_text_edits(&json(text)).unwrap_err()
}

#[test]
fn every_terminator_starts_a_line() {
    assert_eq!(line_starts(""), vec![0]);
    assert_eq!(line_starts("a\nb\r\nc\rd"), vec![0, 2, 5, 7]);
    assert_eq!(line_starts("\r\r\n\n"), vec![0, 1, 3, 4]);
    assert_eq!(line_starts("é\n"), vec![0, 3]);
}

#[test]
fn columns_count_utf16_units_and_stop_at_the_line_end() {
    let text = "é🦀x\nnext";
    assert_eq!(offset(text, 0, 0), 0);
    assert_eq!(offset(text, 0, 1), 2);
    // a column inside a surrogate pair goes on to the next character
    assert_eq!(offset(text, 0, 2), 6);
    assert_eq!(offset(text, 0, 3), 6);
    assert_eq!(offset(text, 0, 4), 7);
    assert_eq!(offset(text, 0, 99), 8);
    assert_eq!(offset(text, 1, 99), 12);
    assert_eq!(offset(text, 2, 0), 12);
}

#[test]
fn no_edits_leave_the_text_alone() {
    assert_eq!(apply_text_edits("a\r\nb", &vec![]), "a\r\nb");
}

#[test]
fn disjoint_edits_do_not_depend_on_their_order() {
    let text = "one two\nthree é four\n";
    let forward = vec![
        edit(at(0, 0), at(0, 3), "1"),
        edit(at(0, 4), at(0, 7), "zwei"),
        edit(at(1, 6), at(1, 7), ""),
        edit(at(1, 8), at(1, 12), "🦀"),
    ];
    let backward = vec![
        edit(at(1, 8), at(1, 12), "🦀"),
        edit(at(1, 6), at(1, 7), ""),
        edit(at(0, 4), at(0, 7), "zwei"),
        edit(at(0, 0), at(0, 3), "1"),
    ];
    let expected = "1 zwei\nthree  🦀\n";
    assert_eq!(apply_text_edits(text, &forward), expected);
    assert_eq!(apply_text_edits(text, &backward), expected);
}

#[test]
fn an_edit_may_span_lines() {
    assert_eq!(apply_text_edits("ab\ncd\nef", &vec![edit(at(0, 1), at(2, 1), "-")]), "a-f");
    assert_eq!(apply_text_edits("ab", &vec![edit(at(9, 0), at(9, 9), "!")]), "ab!");
}

#[test]
fn edits_with_one_start_keep_their_order() {
    // each goes in at the start, so the later one ends up in front
    let edits = vec![edit(at(0, 1), at(0, 1), "x"), edit(at(0, 1), at(0, 1), "y")];
    assert_eq!(apply_text_edits("ab", &edits), "ayxb");
    // a replacement behind an insertion at its start swallows the insertion
    let edits = vec![edit(at(0, 0), at(0, 0), "in"), edit(at(0, 0), at(0, 2), "Z")];
    assert_eq!(apply_text_edits("abcd", &edits), "Zabcd");
}

#[test]
fn edits_that_do_not_fit_are_not_applied() {
    assert!(try_apply_text_edits("abc", &vec![edit(at(0, 2), at(0, 1), "x")]).is_none());
    // the second edit reaches behind what the first has left
    let edits = vec![edit(at(0, 1), at(0, 6), ""), edit(at(0, 0), at(0, 5), "x")];
    assert!(try_apply_text_edits("abcdef", &edits).is_none());
    // the second edit would split a character that the first has put in
    let edits = vec![edit(at(0, 1), at(0, 2), "é"), edit(at(0, 0), at(0, 2), "x")];
    assert!(try_apply_text_edits("abc", &edits).is_none());
}

#[test]
fn both_encodings_of_a_workspace_edit_are_read() {
    let e = "{\"range\":{\"start\":{\"line\":1,\"character\":2},\"end\":{\"line\":1,\"character\":4}},\"newText\":\"x\"}";
    let plain = json(&format!("{{\"changes\":{{\"file:///b\":[{e}],\"file:///a\":[{e},{e}]}}}}"));
    let versioned = json(&format!(
        "{{\"documentChanges\":[{{\"textDocument\":{{\"uri\":\"file:///b\"}},\"edits\":[{e}]}},\
         {{\"textDocument\":{{\"uri\":\"file:///a\"}},\"edits\":[{e}]}},\
         {{\"textDocument\":{{\"uri\":\"file:///a\"}},\"edits\":[{e}]}}]}}"
    ));
    for j in [plain, versioned] {
        let files = collect_text_edits(&j).unwrap();
        let seen: Vec<(&str, usize)> = files.iter().map(|f| (f.uri.as_str(), f.edits.len())).collect();
        assert_eq!(seen, vec![("file:///a", 2), ("file:///b", 1)]);
        assert_eq!(files[1].edits[0].range.end, at(1, 4));
        assert_eq!(files[1].edits[0].new_text, "x");
    }
    assert!(collect_text_edits(&json("{}")).unwrap().is_empty());
    assert!(collect_text_edits(&json("null")).unwrap().is_empty());
}

#[test]
fn the_versioned_encoding_counts_where_both_are_there() {
    let j = json("{\"documentChanges\":[],\"changes\":{\"file:///a\":[]}}");
    assert!(collect_text_edits(&j).unwrap().is_empty());
}

#[test]
fn structs_may_come_as_arrays_and_unknown_members_are_passed_over() {
    let j = json("{\"changes\":{\"u\":[[[[0,1],{\"line\":2,\"character\":3,\"more\":[]}],\"t\"]]}}");
    let files = collect_text_edits(&j).unwrap();
    assert_eq!(files[0].edits[0].range, Range { start: at(0, 1), end: at(2, 3) });
}

#[test]
fn operations_on_whole_files_are_refused() {
    let ok = "{\"textDocument\":{\"uri\":\"u\"},\"edits\":[]}";
    let text = format!("{{\"documentChanges\":[{ok},{{\"kind\":\"create\",\"uri\":\"v\"}}]}}");
    assert_eq!(refusal(&text), "WorkspaceEdit resource operation \"create\" not supported in v0");
}

#[test]
fn malformed_workspace_edits_are_refused() {
    assert_eq!(refusal("{\"documentChanges\":{}}"), "documentChanges not an array");
    assert_eq!(refusal("{\"documentChanges\":[{}]}"), "documentChange missing textDocument.uri");
    assert_eq!(
        refusal("{\"documentChanges\":[{\"textDocument\":{\"uri\":\"u\"}}]}"),
        "invalid type: null, expected a sequence"
    );
    assert_eq!(refusal("{\"changes\":[]}"), "invalid type: sequence, expected a map");
    assert_eq!(refusal("{\"changes\":{\"u\":{}}}"), "invalid type: map, expected a sequence");
}

#[test]
fn malformed_text_edits_are_refused_in_the_parsers_words() {
    let of = |edit: &str| refusal(&format!("{{\"changes\":{{\"u\":[{edit}]}}}}"));
    let range = "\"range\":{\"start\":{\"line\":0,\"character\":0},\"end\":{\"line\":0,\"character\":0}}";
    assert_eq!(of("3"), "invalid type: integer `3`, expected struct TextEdit");
    assert_eq!(of("true"), "invalid type: boolean `true`, expected struct TextEdit");
    assert_eq!(of("1.5"), "invalid type: floating point `1.5`, expected struct TextEdit");
    assert_eq!(of("\"a\\\"b\""), "invalid type: string \"a\\\"b\", expected struct TextEdit");
    assert_eq!(of("{}"), "missing field `range`");
    assert_eq!(of(&format!("{{{range}}}")), "missing field `newText`");
    assert_eq!(of(&format!("{{{range},\"newText\":7}}")), "invalid type: integer `7`, expected a string");
    assert_eq!(of("[]"), "invalid length 0, expected struct TextEdit with 2 elements");
    assert_eq!(of("[[[0,0],[0,0]]]"), "invalid length 1, expected struct TextEdit with 2 elements");
    assert_eq!(of("[[[0,0],[0,0]],\"\",0]"), "invalid length 3, expected fewer elements in array");
    assert_eq!(of("{\"range\":null,\"newText\":\"\"}"), "invalid type: null, expected struct Range");
    assert_eq!(of("{\"range\":{\"end\":[0,0]},\"newText\":\"\"}"), "missing field `start`");
    assert_eq!(of("{\"range\":[[0],[0,0]],\"newText\":\"\"}"), "invalid length 1, expected struct Position with 2 elements");
    assert_eq!(of("{\"range\":[{\"line\":0},[0,0]],\"newText\":\"\"}"), "missing field `character`");
    assert_eq!(of("{\"range\":[[-1,0],[0,0]],\"newText\":\"\"}"), "invalid value: integer `-1`, expected usize");
    assert_eq!(of("{\"range\":[[0,\"x\"],[0,0]],\"newText\":\"\"}"), "invalid type: string \"x\", expected usize");
    assert_eq!(of("{\"range\":[[0,1e3],[0,0]],\"newText\":\"\"}"), "invalid type: floating point `1000.0`, expected usize");
}

#[test]
fn a_file_is_edited_where_its_uri_says() {
    let file = FileEdits {
        uri: "file:///a%20b.py".to_string(),
        edits: vec![edit(at(0, 0), at(0, 1), "X")],
    };
    assert_eq!(
        apply_workspace_edit(&file, "abc"),
        Some(("/a b.py".to_string(), "Xbc".to_string()))
    );
    assert!(apply_workspace_edit(&FileEdits { uri: "%aé".to_string(), edits: vec![] }, "").is_none());
}

#[test]
fn a_summary_has_a_row_for_each_line_that_changes() {
    let files = vec![
        FileChange {
            path: "/w/b.py".to_string(),
            text: "keep\r\nfoo(foo)\r\nfoo".to_string(),
            edits: vec![
                edit(at(2, 0), at(2, 3), "bar"),
                edit(at(1, 4), at(1, 7), "bar"),
                edit(at(1, 0), at(1, 3), "bar"),
                edit(at(0, 0), at(0, 4), "keep"),
            ],
        },
        FileChange {
            path: "/w/a/c.py".to_string(),
            text: "foo\n".to_string(),
            edits: vec![edit(at(0, 0), at(0, 3), "bar")],
        },
    ];
    let s = summarize_workspace_edit(&files).unwrap();
    assert_eq!((s.files, s.edits), (2, 5));
    let rows: Vec<(&str, usize, &str, Option<&str>)> = s
        .rows
        .iter()
        .map(|r| (r.path.as_str(), r.line, r.before.as_str(), r.after.as_deref()))
        .collect();
    assert_eq!(
        rows,
        vec![
            ("/w/a/c.py", 0, "foo", Some("bar")),
            ("/w/b.py", 1, "foo(foo)", Some("bar(bar)")),
            ("/w/b.py", 2, "foo", Some("bar")),
        ]
    );
}

#[test]
fn a_summary_of_edits_that_do_not_fit_is_not_made() {
    let files = vec![FileChange {
        path: "/a".to_string(),
        text: "abc".to_string(),
        edits: vec![edit(at(0, 2), at(0, 1), "x")],
    }];
    assert!(summarize_workspace_edit(&files).is_none());
}

#[test]
fn a_preview_shows_what_applying_writes() {
    let text = "foo = 1\r\nkeep é\rx🦀 foo foo\n";
    let edits = || {
        vec![
            edit(at(2, 8), at(2, 11), "grünt"),
            edit(at(0, 0), at(0, 3), "bar"),
            edit(at(2, 4), at(2, 7), ""),
            edit(at(2, 0), at(2, 0), "> "),
        ]
    };
    let file = FileChange { path: "/a".to_string(), text: text.to_string(), edits: edits() };
    let s = summarize_workspace_edit(&vec![file]).unwrap();
    let rows: Vec<(usize, Option<&str>)> =
        s.rows.iter().map(|r| (r.line, r.after.as_deref())).collect();
    assert_eq!(rows, vec![(0, Some("bar = 1")), (2, Some("> x🦀  grünt"))]);
    // the rows in place of their lines, with the terminators that these had
    let applied = apply_text_edits(text, &edits());
    assert_eq!(applied, "bar = 1\r\nkeep é\r> x🦀  grünt\n");
}

#[test]
fn changed_files_come_in_order() {
    let file = |uri: &str| FileEdits { uri: uri.to_string(), edits: vec![] };
    let files = vec![file("file:///w/b.py"), file("file:///w/%61.py"), file("file:///w/B.py")];
    let listed = changed_files(&files).unwrap();
    assert_eq!(listed, vec!["/w/B.py", "/w/a.py", "/w/b.py"]);
    assert!(changed_files(&vec![file("/x"), file("%aé")]).is_none());
}

/// The rows of one file, and its edited text.
fn preview(text: &str, edits: Vec<TextEdit>) -> (Vec<(usize, String, Option<String>)>, String) {
    let applied = apply_text_edits(text, &edits);
    let file = FileChange { path: "/a".to_string(), text: text.to_string(), edits };
    let s = summarize_workspace_edit(&vec![file]).unwrap();
    let rows = s.rows.into_iter().map(|r| (r.line, r.before, r.after)).collect();
    (rows, applied)
}

fn row(line: usize, before: &str, after: Option<&str>) -> (usize, String, Option<String>) {
    (line, before.to_string(), after.map(|a| a.to_string()))
}

#[test]
fn an_edit_that_spans_lines_joins_them() {
    let (rows, applied) = preview("ab\ncd", vec![edit(at(0, 1), at(1, 1), "X")]);
    assert_eq!(rows, vec![row(0, "ab", Some("aXd")), row(1, "cd", None)]);
    assert_eq!(applied, "aXd");
    // over three lines, and with an edit of its own on the last
    let edits = vec![edit(at(3, 0), at(3, 1), "H"), edit(at(0, 2), at(2, 1), "-")];
    let (rows, applied) = preview("ab\r\ncd\r\nef\r\ngh\r\n", edits);
    assert_eq!(
        rows,
        vec![
            row(0, "ab", Some("ab-f")),
            row(1, "cd", None),
            row(2, "ef", None),
            row(3, "gh", Some("Hh")),
        ]
    );
    assert_eq!(applied, "ab-f\r\nHh\r\n");
}

#[test]
fn a_line_that_is_cut_out_is_gone() {
    // the line before it stays as it was, and has no row
    let (rows, applied) = preview("a\nb\nc", vec![edit(at(0, 1), at(1, 1), "")]);
    assert_eq!(rows, vec![row(1, "b", None)]);
    assert_eq!(applied, "a\nc");
    // an empty line that is gone has a row too
    let (rows, applied) = preview("a\n\nc", vec![edit(at(0, 1), at(1, 0), "")]);
    assert_eq!(rows, vec![row(1, "", None)]);
    assert_eq!(applied, "a\nc");
}

#[test]
fn what_an_edit_puts_back_as_it_was_is_no_change() {
    // a whole line is replaced, its terminator by an equal one
    let (rows, applied) = preview("ab\ncd", vec![edit(at(0, 0), at(1, 0), "xb\n")]);
    assert_eq!(rows, vec![row(0, "ab", Some("xb"))]);
    assert_eq!(applied, "xb\ncd");
    let (rows, applied) = preview("ab\r\ncd", vec![edit(at(0, 0), at(1, 2), "ab\r\ncd")]);
    assert_eq!(rows, vec![]);
    assert_eq!(applied, "ab\r\ncd");
    // letters that share a byte are not taken apart
    let (rows, _) = preview("é", vec![edit(at(0, 0), at(0, 1), "è")]);
    assert_eq!(rows, vec![row(0, "é", Some("è"))]);
}

#[test]
fn a_row_may_hold_new_lines() {
    let (rows, applied) = preview("ab\ncd", vec![edit(at(1, 0), at(1, 0), "new\n")]);
    assert_eq!(rows, vec![row(1, "cd", Some("new\ncd"))]);
    assert_eq!(applied, "ab\nnew\ncd");
    // a column behind the end of a line is the start of the next
    let (rows, applied) = preview("ab\ncd", vec![edit(at(0, 9), at(0, 9), "X")]);
    assert_eq!(rows, vec![row(1, "cd", Some("Xcd"))]);
    assert_eq!(applied, "ab\nXcd");
    // a terminator that changes joins its lines
    let (rows, applied) = preview("ab\r\ncd", vec![edit(at(0, 2), at(0, 3), "")]);
    assert_eq!(rows, vec![row(0, "ab", Some("ab\ncd")), row(1, "cd", None)]);
    assert_eq!(applied, "ab\ncd");
}

#[test]
fn edits_that_eat_into_each_other_are_shown_as_they_are_applied() {
    // the replacement takes the insertion's text and leaves the line's own
    let edits = vec![edit(at(0, 0), at(0, 0), "in"), edit(at(0, 0), at(0, 2), "Z")];
    let (rows, applied) = preview("abcd\nef", edits);
    assert_eq!(rows, vec![row(0, "abcd", Some("Zabcd"))]);
    assert_eq!(applied, "Zabcd\nef");
    // the upper edit takes all of the lower one's text and some more
    let edits = vec![edit(at(1, 0), at(1, 1), ""), edit(at(0, 1), at(1, 1), "-")];
    let (rows, applied) = preview("ab\ncde", edits);
    assert_eq!(rows, vec![row(0, "ab", Some("a-e")), row(1, "cde", None)]);
    assert_eq!(applied, "a-e");
}

#[test]
fn an_edit_is_undone_by_its_inverse() {
    let applied = apply_text_edits("ab\ncd", &vec![edit(at(0, 1), at(1, 1), "X")]);
    assert_eq!(apply_text_edits(&applied, &vec![edit(at(0, 1), at(0, 2), "b\nc")]), "ab\ncd");
    // on one line both columns are counted in UTF-16 units
    let applied = apply_text_edits("x\r\n🦀 old!\n", &vec![edit(at(1, 3), at(1, 6), "né🦀")]);
    assert_eq!(applied, "x\r\n🦀 né🦀!\n");
    assert_eq!(
        apply_text_edits(&applied, &vec![edit(at(1, 3), at(1, 7), "old")]),
        "x\r\n🦀 old!\n"
    );
}

#[test]
fn both_encodings_of_one_set_of_edits_agree() {
    let e = "[{\"range\":{\"start\":{\"line\":0,\"character\":0},\
             \"end\":{\"line\":0,\"character\":1}},\"newText\":\"x\"}]";
    let plain = json(&format!("{{\"changes\":{{\"file:///b\":{e},\"file:///a\":[]}}}}"));
    let versioned = json(&format!(
        "{{\"documentChanges\":[{{\"textDocument\":{{\"uri\":\"file:///a\"}},\"edits\":[]}},\
         {{\"textDocument\":{{\"uri\":\"file:///b\"}},\"edits\":{e}}}]}}"
    ));
    let listed = |edit: &Json| -> Vec<(String, usize)> {
        let files = collect_text_edits(edit).unwrap();
        files.into_iter().map(|f| (f.uri, f.edits.len())).collect()
    };
    assert_eq!(listed(&plain), listed(&versioned));
    assert_eq!(listed(&plain), vec![("file:///a".to_string(), 0), ("file:///b".to_string(), 1)]);
}

#[test]
fn a_line_that_is_gone_is_rendered_as_null() {
    let file = FileChange {
        path: "/w/a".to_string(),
        text: "ab\ncd".to_string(),
        edits: vec![edit(at(0, 1), at(1, 1), "X")],
    };
    let s = summarize_workspace_edit(&vec![file]).unwrap();
    let request = RenameRequest {
        file: "a".to_string(),
        target: "0:1".to_string(),
        new_name: "X".to_string(),
        apply: false,
        raw: false,
    };
    let out = render_rename_result("/w", &request, 0, false, &s, &Json::Null);
    assert_eq!(
        show_json(out.get("changes").unwrap()),
        "[{\"after\":\"aXd\",\"before\":\"ab\",\"file\":\"a\",\"line\":1},\
         {\"after\":null,\"before\":\"cd\",\"file\":\"a\",\"line\":2}]"
    );
}
