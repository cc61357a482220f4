//! Targets, candidates and the resolution of a symbol.

use lsp4a::apply::{line_starts, position_to_byte_offset, Position};
use lsp4a::json::{parse_json, show_json, Json};
use lsp4a::resolve::{
    covered, lexical_candidates, parse_target, resolve_symbol, Candidate, References, Resolution, Target,
};

#[test]
fn target_position_vs_symbol() {
    assert!(matches!(parse_target("5:10"), Target::Position { line: 5, character: 10 }));
    assert!(matches!(parse_target("greet"), Target::Symbol(_)));
    // a malformed position spec falls back to symbol, then fails lookup
    assert!(matches!(parse_target("5:x"), Target::Symbol(_)));
}

#[test]
fn word_boundaries_reject_substrings() {
    let text = "greeting = greet(greeter)\ngreet # greet";
    let hits = lexical_candidates(text, "greet");
    let positions: Vec<(usize, usize)> = hits.iter().map(|c| (c.line, c.character)).collect();
    // not `greeting`/`greeter`; the scan does count the comment, which the
    // server sorts out later
    assert_eq!(positions, vec![(0, 11), (1, 0), (1, 8)]);
}

#[test]
fn underscore_is_a_word_char() {
    assert!(lexical_candidates("my_greet = 1", "greet").is_empty());
    assert_eq!(lexical_candidates("_x = _x + 1", "_x").len(), 2);
}

#[test]
fn columns_are_utf16() {
    // 🦀 is one code point but two UTF-16 units.
    let hits = lexical_candidates("s = \"🦀\"; greet()", "greet");
    assert_eq!(hits.len(), 1);
    assert_eq!((hits[0].line, hits[0].character), (0, 10));
}

fn position(line: usize, character: usize) -> Candidate {
    Candidate { line, character, line_text: format!("line {line}") }
}

fn location(uri: &str, line: usize, start: usize, end: usize) -> Json {
    let text = format!(
        "{{\"uri\":\"{uri}\",\"range\":{{\"start\":{{\"line\":{line},\"character\":{start}}},\
         \"end\":{{\"line\":{line},\"character\":{end}}}}}}}"
    );
    parse_json(text.as_bytes()).unwrap()
}

#[test]
fn a_position_is_read_back() {
    for (line, character) in [(0usize, 0usize), (7, 42), (usize::MAX, usize::MAX)] {
        match parse_target(&format!("{line}:{character}")) {
            Target::Position { line: l, character: c } => assert_eq!((l, c), (line, character)),
            Target::Symbol(s) => panic!("{s} is a position"),
        }
    }
}

#[test]
fn only_two_numbers_around_the_first_colon_are_a_position() {
    assert!(matches!(parse_target("+5:010"), Target::Position { line: 5, character: 10 }));
    for text in ["5:", ":5", "5:6:7", "-1:2", "5 : 6", "18446744073709551616:0", "", ":"] {
        match parse_target(text) {
            Target::Symbol(s) => assert_eq!(s, text),
            Target::Position { .. } => panic!("{text} is no position"),
        }
    }
}

#[test]
fn an_empty_name_stands_nowhere() {
    assert!(lexical_candidates("a b c", "").is_empty());
}

#[test]
fn lines_end_in_newline_with_or_without_carriage_return() {
    let hits = lexical_candidates("x = 1\r\ny = x  \r\n\r\nx", "x");
    let found: Vec<(usize, usize, &str)> =
        hits.iter().map(|c| (c.line, c.character, c.line_text.as_str())).collect();
    assert_eq!(found, vec![(0, 0, "x = 1"), (1, 4, "y = x"), (3, 0, "x")]);
}

#[test]
fn letters_of_any_script_bound_a_word() {
    assert!(lexical_candidates("égreet", "greet").is_empty());
    assert_eq!(lexical_candidates("→greet←", "greet").len(), 1);
}

#[test]
fn occurrences_may_overlap() {
    let hits = lexical_candidates("a.a.a", "a.a");
    let columns: Vec<usize> = hits.iter().map(|c| c.character).collect();
    assert_eq!(columns, vec![0, 2]);
}

#[test]
fn nothing_found_is_a_failure_that_names_symbol_and_file() {
    let r = resolve_symbol("file:///a.py", "a.py", "no\"pe", &vec![], &vec![], &References::Unasked);
    match r {
        Resolution::Failed(e) => {
            assert_eq!(e.message, "symbol \"no\\\"pe\" not found in a.py");
            assert!(e.data.is_none());
        }
        other => panic!("{other:?}"),
    }
}

#[test]
fn nothing_renameable_lists_the_occurrences() {
    let all = vec![position(1, 2), position(3, 4)];
    match resolve_symbol("u", "a.py", "x", &all, &vec![], &References::Unasked) {
        Resolution::Failed(e) => {
            assert_eq!(
                e.message,
                "2 occurrence(s) of \"x\" in a.py, but none is a renameable symbol (strings/comments?)"
            );
            assert_eq!(
                show_json(&e.data.unwrap()),
                "{\"occurrences\":[{\"character\":2,\"line\":1,\"text\":\"line 1\"},\
                 {\"character\":4,\"line\":3,\"text\":\"line 3\"}]}"
            );
        }
        other => panic!("{other:?}"),
    }
}

#[test]
fn one_renameable_occurrence_is_the_symbol() {
    let all = vec![position(1, 2), position(3, 4)];
    let r = resolve_symbol("u", "a.py", "x", &all, &vec![position(3, 4)], &References::Unasked);
    assert!(matches!(r, Resolution::Found { line: 3, character: 4 }));
}

#[test]
fn several_need_references_and_are_one_symbol_where_these_cover_them() {
    let all = vec![position(1, 2), position(3, 4)];
    let r = resolve_symbol("u", "a.py", "x", &all, &all, &References::Unasked);
    assert!(matches!(r, Resolution::AskReferences { line: 1, character: 2 }));

    let covering = References::Known(vec![location("u", 1, 2, 3), location("u", 3, 4, 5)]);
    let r = resolve_symbol("u", "a.py", "x", &all, &all, &covering);
    assert!(matches!(r, Resolution::Found { line: 1, character: 2 }));
}

#[test]
fn uncovered_occurrences_are_ambiguous_and_all_listed() {
    let all = vec![position(1, 2), position(3, 4)];
    let short = References::Known(vec![location("u", 1, 2, 3), location("v", 3, 4, 5)]);
    for references in [short, References::Unavailable] {
        match resolve_symbol("u", "a.py", "x", &all, &all, &references) {
            Resolution::Failed(e) => {
                assert_eq!(
                    e.message,
                    "\"x\" is ambiguous in a.py: 2 distinct occurrences verified as symbols; \
                     disambiguate with line:char"
                );
                let data = e.data.unwrap();
                assert_eq!(data.get("candidates").unwrap().as_array().unwrap().len(), 2);
                assert_eq!(
                    data.get("hint").unwrap().as_str(),
                    Some("re-run with an explicit position target: <line>:<character> (zero-indexed)")
                );
            }
            other => panic!("{other:?}"),
        }
    }
}

#[test]
fn a_range_covers_its_start_but_not_its_end() {
    let c = position(3, 4);
    assert!(covered(&vec![location("u", 3, 4, 5)], "u", &c));
    assert!(covered(&vec![location("u", 3, 0, 9)], "u", &c));
    assert!(!covered(&vec![location("u", 3, 0, 4)], "u", &c));
    assert!(!covered(&vec![location("u", 3, 5, 9)], "u", &c));
    assert!(!covered(&vec![location("u", 2, 4, 5)], "u", &c));
    assert!(!covered(&vec![location("v", 3, 4, 5)], "u", &c));
    assert!(!covered(&vec![parse_json(b"{\"uri\":\"u\"}").unwrap()], "u", &c));
    // over several lines only the first and the last ask for the column
    let wide = |a: usize, b: usize, c: usize, d: usize| {
        let text = format!(
            "{{\"uri\":\"u\",\"range\":{{\"start\":{{\"line\":{a},\"character\":{b}}},\
             \"end\":{{\"line\":{c},\"character\":{d}}}}}}}"
        );
        vec![parse_json(text.as_bytes()).unwrap()]
    };
    assert!(covered(&wide(3, 0, 4, 0), "u", &c));
    assert!(covered(&wide(2, 9, 4, 0), "u", &c));
    assert!(covered(&wide(2, 9, 3, 5), "u", &c));
    assert!(!covered(&wide(2, 9, 3, 4), "u", &c));
    assert!(!covered(&wide(3, 5, 4, 0), "u", &c));
    assert!(!covered(&wide(3, 4, 2, 9), "u", &c));
    // every number has to be there
    let bare = "{\"uri\":\"u\",\"range\":{\"start\":{\"line\":3,\"character\":0},\
                \"end\":{\"character\":9}}}";
    assert!(!covered(&vec![parse_json(bare.as_bytes()).unwrap()], "u", &c));
}

#[test]
fn a_candidates_position_leads_to_the_symbol() {
    let text = "a = \"🦀é\"\n  greet(🦀, greet)\r\ngreet";
    let starts = line_starts(text);
    let hits = lexical_candidates(text, "greet");
    assert_eq!(hits.len(), 3);
    for c in hits {
        let p = Position { line: c.line, character: c.character };
        let at = position_to_byte_offset(text, &starts, &p);
        assert!(text[at..].starts_with("greet"));
    }
}
