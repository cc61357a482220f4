//! Whole runs, against a server that plays from a script and files in memory.

use lsp4a::client::Incoming;
use lsp4a::error::{error_report, mistake_report, Mistake, Verb};
use lsp4a::json::{parse_json, pretty_json, show_json, Json};
use lsp4a::render::{render_diagnostics, DiagnosticsRequest, ReferencesRequest, RenameRequest};
use lsp4a::session::{Action, Command, Event, Session};
use lsp4a::transport::{read_message, Frame};

/// sample.py + consumer.py: a function with comment/string decoys, imported
/// across a file boundary (the cross-file rename case).
const SAMPLE: &str = "def greet(name: str) -> str:
    # Decoy: the word greet appears in this comment but must NOT be renamed.
    return f\"Hello, {name}! The string also says greet on purpose.\"


message = greet(123)
print(message)
";
const CONSUMER: &str = "from sample import greet

reply = greet(\"world\")
print(reply)
";

/// shadow.py: two distinct locals both named `total`, in separate scopes.
const SHADOW: &str = "def a():
    total = 1
    return total

def b():
    total = 2
    return total
";

fn json(text: &str) -> Json {
    parse_json(text.as_bytes()).unwrap()
}

fn at<'a>(j: &'a Json, path: &[&str]) -> &'a Json {
    let mut v = j;
    for key in path {
        v = v.get(key).unwrap_or_else(|| panic!("no {key} in {}", show_json(v)));
    }
    v
}

fn text<'a>(j: &'a Json, path: &[&str]) -> &'a str {
    at(j, path).as_str().unwrap()
}

fn items<'a>(j: &'a Json, path: &[&str]) -> &'a Vec<Json> {
    at(j, path).as_array().unwrap()
}

fn range(line: u32, start: u32, end: u32) -> String {
    format!(
        "{{\"start\":{{\"line\":{line},\"character\":{start}}},\"end\":{{\"line\":{line},\"character\":{end}}}}}"
    )
}

fn location(uri: &str, line: u32, start: u32, end: u32) -> String {
    format!("{{\"uri\":\"{uri}\",\"range\":{}}}", range(line, start, end))
}

fn edit(line: u32, start: u32, end: u32, new_text: &str) -> String {
    format!("{{\"range\":{},\"newText\":\"{new_text}\"}}", range(line, start, end))
}

/// The script of one server: the result of a request, or what to send in its place.
struct Server {
    answer: fn(&str, &Json) -> Result<String, String>,
    /// Messages that come before the first answer.
    chatter: Vec<&'static str>,
}

/// A world for a session: a server, files under `/ws`, and what was said.
struct World {
    server: Server,
    files: Vec<(String, String)>,
    inbox: Vec<Incoming>,
    heard: Vec<String>,
    writes: usize,
}

impl World {
    fn new(answer: fn(&str, &Json) -> Result<String, String>, files: &[(&str, &str)]) -> World {
        World {
            server: Server { answer, chatter: vec![] },
            files: files.iter().map(|(p, t)| (format!("/ws/{p}"), t.to_string())).collect(),
            inbox: vec![],
            heard: vec![],
            writes: 0,
        }
    }

    fn file(&self, name: &str) -> &str {
        let path = format!("/ws/{name}");
        &self.files.iter().find(|(p, _)| *p == path).unwrap().1
    }

    fn read(&self, path: &str) -> Result<String, String> {
        match self.files.iter().find(|(p, _)| p == path) {
            Some((_, t)) => Ok(t.clone()),
            None => Err("No such file or directory (os error 2)".to_string()),
        }
    }

    /// What the server does with a frame.
    fn receive(&mut self, frame: &[u8]) {
        let msg = match read_message(frame, true) {
            Frame::Message { value, used } => {
                assert_eq!(used, frame.len());
                value
            }
            other => panic!("{other:?}"),
        };
        let Some(method) = msg.get("method").and_then(|m| m.as_str().map(|s| s.to_string())) else {
            self.heard.push(format!("answer {}", show_json(at(&msg, &["result"]))));
            return;
        };
        self.heard.push(method.clone());
        let Some(id) = msg.get("id") else { return };
        for line in self.server.chatter.drain(..) {
            self.inbox.push(Incoming::Frame(json(line)));
        }
        let id = show_json(id);
        let reply = match (self.server.answer)(&method, at(&msg, &["params"])) {
            Ok(result) => format!("{{\"jsonrpc\":\"2.0\",\"id\":{id},\"result\":{result}}}"),
            Err(error) => format!("{{\"jsonrpc\":\"2.0\",\"id\":{id},\"error\":{error}}}"),
        };
        self.inbox.push(Incoming::Frame(json(&reply)));
    }

    /// Runs a command to its end; whether it went well, and what it prints.
    fn run(&mut self, command: Command) -> (bool, Json) {
        let started = Session::start("/ws".to_string(), "ty server".to_string(), 30, command);
        let (mut session, mut action) = match started {
            Ok(s) => s,
            Err(e) => return (false, error_report(e)),
        };
        loop {
            let event = match action {
                Action::Spawn(words) => {
                    assert_eq!(words, vec!["ty", "server"]);
                    Event::Spawned
                }
                Action::Locate(path) => {
                    if path == "/ws" || self.read(&path).is_ok() {
                        Event::Located(Ok(path))
                    } else {
                        Event::Located(Err("No such file or directory (os error 2)".to_string()))
                    }
                }
                Action::Send(frame) => {
                    self.receive(&frame);
                    Event::Sent
                }
                Action::Receive => {
                    if self.inbox.is_empty() {
                        Event::Incoming(Incoming::Timeout)
                    } else {
                        Event::Incoming(self.inbox.remove(0))
                    }
                }
                Action::Read(path) => Event::Content(self.read(&path)),
                Action::Write { path, text } => {
                    self.writes += 1;
                    match self.files.iter_mut().find(|(p, _)| *p == path) {
                        Some(f) => {
                            f.1 = text;
                            Event::Written(Ok(()))
                        }
                        None => Event::Written(Err("Permission denied (os error 13)".to_string())),
                    }
                }
                Action::Finish(output) => return (true, output),
                Action::Fail(e) => return (false, error_report(e)),
                Action::Abort => panic!("aborted"),
            };
            action = session.step(event);
        }
    }
}

const INIT: &str = "{\"capabilities\":{\"positionEncoding\":\"utf-16\",\"referencesProvider\":true}}";

fn place(params: &Json) -> (u64, u64) {
    let p = at(params, &["position"]);
    (at(p, &["line"]).as_u64().unwrap(), at(p, &["character"]).as_u64().unwrap())
}

fn greet_references() -> String {
    format!(
        "[{},{},{},{}]",
        location("file:///ws/sample.py", 5, 10, 15),
        location("file:///ws/consumer.py", 2, 8, 13),
        location("file:///ws/sample.py", 0, 4, 9),
        location("file:///ws/consumer.py", 0, 19, 24)
    )
}

/// A server that knows `greet`.
fn greet_server(method: &str, params: &Json) -> Result<String, String> {
    match method {
        "initialize" => Ok(INIT.to_string()),
        "shutdown" => Ok("null".to_string()),
        "textDocument/prepareRename" => Ok(match place(params) {
            (0, 4) => range(0, 4, 9),
            (5, 10) => range(5, 10, 15),
            _ => "null".to_string(),
        }),
        "textDocument/references" => {
            assert_eq!(place(params), (0, 4));
            Ok(greet_references())
        }
        "textDocument/rename" => {
            assert_eq!(place(params), (0, 4));
            let name = text(params, &["newName"]);
            Ok(format!(
                "{{\"changes\":{{\"file:///ws/sample.py\":[{},{}],\"file:///ws/consumer.py\":[{},{}]}}}}",
                edit(0, 4, 9, name),
                edit(5, 10, 15, name),
                edit(0, 19, 24, name),
                edit(2, 8, 13, name)
            ))
        }
        "textDocument/diagnostic" => Ok(format!(
            "{{\"kind\":\"full\",\"items\":[{{\"range\":{},\"severity\":1,\
             \"code\":\"invalid-argument-type\",\"source\":\"ty\",\"message\":\"Expected str\",\
             \"relatedInformation\":[{{\"location\":{},\"message\":\"Function defined here\"}}]}}]}}",
            range(5, 16, 19),
            location("file:///ws/sample.py", 0, 4, 9)
        )),
        other => panic!("{other}"),
    }
}

/// A server that knows the two `total`s.
fn shadow_server(method: &str, params: &Json) -> Result<String, String> {
    match method {
        "initialize" => Ok(INIT.to_string()),
        "shutdown" => Ok("null".to_string()),
        "textDocument/prepareRename" => {
            let (line, character) = place(params);
            Ok(range(line as u32, character as u32, character as u32 + 5))
        }
        "textDocument/references" => Ok(format!(
            "[{},{}]",
            location("file:///ws/shadow.py", 1, 4, 9),
            location("file:///ws/shadow.py", 2, 11, 16)
        )),
        "textDocument/rename" => {
            assert_eq!(place(params), (1, 4));
            let name = text(params, &["newName"]);
            Ok(format!(
                "{{\"documentChanges\":[{{\"textDocument\":{{\"uri\":\"file:///ws/shadow.py\",\"version\":1}},\
                 \"edits\":[{},{}]}}]}}",
                edit(1, 4, 9, name),
                edit(2, 11, 16, name)
            ))
        }
        other => panic!("{other}"),
    }
}

fn samples() -> World {
    World::new(greet_server, &[("sample.py", SAMPLE), ("consumer.py", CONSUMER)])
}

fn shadows() -> World {
    World::new(shadow_server, &[("shadow.py", SHADOW)])
}

fn rename(file: &str, target: &str, new_name: &str, apply: bool, raw: bool) -> Command {
    Command::Rename(RenameRequest {
        file: file.to_string(),
        target: target.to_string(),
        new_name: new_name.to_string(),
        apply,
        raw,
    })
}

fn references(file: &str, target: &str, raw: bool) -> Command {
    Command::References(ReferencesRequest { file: file.to_string(), target: target.to_string(), raw })
}

fn diagnostics(file: &str, raw: bool) -> Command {
    Command::Diagnostics(DiagnosticsRequest { file: file.to_string(), raw })
}

fn preview_contract() {
    let mut world = samples();
    let (ok, json) = world.run(rename("sample.py", "greet", "salutation", false, false));
    assert!(ok, "expected exit 0, got {}", show_json(&json));

    assert_eq!(text(&json, &["status"]), "preview");
    assert_eq!(text(&json, &["target"]), "greet");
    assert_eq!(text(&json, &["renamed_to"]), "salutation");
    assert_eq!(
        show_json(at(&json, &["resolved"])),
        "{\"file\":\"sample.py\",\"from\":\"symbol\",\"line\":1}"
    );
    assert_eq!(show_json(at(&json, &["scope"])), "{\"edits\":4,\"files\":2}");

    // Presentation-only by default: no raw WorkspaceEdit leaks into the output.
    assert!(json.get("edit").is_none(), "raw edit must be behind --raw");

    let changes = items(&json, &["changes"]);
    assert_eq!(changes.len(), 4, "4 changed lines across 2 files");
    // The before/after rows carry the change; no protocol coordinates (columns).
    for c in changes {
        assert!(c.get("character").is_none());
        assert!(at(c, &["line"]).as_u64().is_some());
        assert_ne!(text(c, &["before"]), text(c, &["after"]));
    }
    // The declaration line, transformed.
    assert!(changes.iter().any(|c| text(c, &["file"]) == "sample.py"
        && text(c, &["after"]) == "def salutation(name: str) -> str:"));
    // The decoy comment/string line is NOT among the changes.
    assert!(
        changes.iter().all(|c| !text(c, &["before"]).contains("Decoy")),
        "the comment/string decoy line must be filtered out"
    );

    // Preview must not touch disk.
    assert!(world.file("sample.py").contains("def greet("), "preview must not write to disk");
    assert_eq!(world.writes, 0);
}

#[test]
fn cli_preview_is_a_structured_summary_not_a_workspace_edit() {
    preview_contract();
}

#[test]
fn rename_preview_is_a_structured_summary_not_a_workspace_edit() {
    preview_contract();
}

fn raw_contract() {
    let (ok, json) = samples().run(rename("sample.py", "greet", "salutation", false, true));
    assert!(ok, "expected exit 0, got {}", show_json(&json));
    // The summary is still there, plus the raw edit for callers that apply it themselves.
    assert_eq!(at(&json, &["scope", "edits"]).as_u64(), Some(4));
    let edit = at(&json, &["edit"]);
    assert!(
        edit.get("changes").is_some() || edit.get("documentChanges").is_some(),
        "raw edit should carry one of the two WorkspaceEdit encodings, got {}",
        show_json(edit)
    );
}

#[test]
fn cli_raw_flag_includes_the_workspace_edit() {
    raw_contract();
}

#[test]
fn rename_raw_flag_includes_the_workspace_edit() {
    raw_contract();
}

fn apply_contract() {
    let mut world = samples();
    let (ok, json) = world.run(rename("sample.py", "greet", "salutation", true, false));
    assert!(ok, "expected exit 0, got {}", show_json(&json));
    assert_eq!(text(&json, &["status"]), "applied");

    let sample = world.file("sample.py");
    let consumer = world.file("consumer.py");
    assert!(sample.contains("def salutation(name: str) -> str:"));
    assert!(sample.contains("message = salutation(123)"));
    assert!(consumer.contains("from sample import salutation"));
    assert!(consumer.contains("reply = salutation(\"world\")"));
    // Decoys: the comment and the string literal still say "greet".
    assert!(sample.contains("the word greet appears in this comment"));
    assert!(sample.contains("also says greet on purpose"));
    assert_eq!(world.writes, 2);
}

#[test]
fn cli_apply_rewrites_disk_and_leaves_decoys_untouched() {
    apply_contract();
}

#[test]
fn rename_apply_rewrites_disk_and_leaves_decoys_untouched() {
    apply_contract();
}

fn ambiguity_contract() {
    let (ok, json) = shadows().run(rename("shadow.py", "total", "sum", false, false));
    assert!(!ok, "ambiguous rename must exit non-zero, got {}", show_json(&json));
    let candidates = items(&json, &["error", "data", "candidates"]);
    assert_eq!(candidates.len(), 4, "both scopes' occurrences are listed");
    assert!(text(&json, &["error", "message"]).contains("ambiguous"));
}

#[test]
fn cli_shadowed_symbol_is_a_structured_ambiguity_error() {
    ambiguity_contract();
}

#[test]
fn rename_shadowed_symbol_is_a_structured_ambiguity_error() {
    ambiguity_contract();
}

fn position_contract() {
    // `1:4` = the `total` in `a()` (line 1, col 4, zero-indexed) — the escape hatch.
    let (ok, json) = shadows().run(rename("shadow.py", "1:4", "sum", false, false));
    assert!(ok, "expected exit 0, got {}", show_json(&json));
    assert_eq!(text(&json, &["resolved", "from"]), "position");
    assert_eq!(show_json(at(&json, &["scope"])), "{\"edits\":2,\"files\":1}");
    // Only the first scope changed.
    let changes = items(&json, &["changes"]);
    assert_eq!(changes.len(), 2);
    assert!(changes.iter().all(|c| text(c, &["after"]).contains("sum")));
}

#[test]
fn cli_position_target_disambiguates_one_scope() {
    position_contract();
}

#[test]
fn rename_position_target_disambiguates_one_scope() {
    position_contract();
}

fn unknown_contract() {
    let (ok, json) = shadows().run(rename("shadow.py", "nope", "sum", false, false));
    assert!(!ok, "unknown symbol must exit non-zero, got {}", show_json(&json));
    assert!(text(&json, &["error", "message"]).contains("not found"));
}

#[test]
fn cli_unknown_symbol_is_a_structured_error() {
    unknown_contract();
}

#[test]
fn rename_unknown_symbol_is_a_structured_error() {
    unknown_contract();
}

#[test]
fn references_speak_in_lines_and_text_not_columns() {
    let (ok, json) = samples().run(references("sample.py", "greet", false));
    assert!(ok, "expected exit 0, got {}", show_json(&json));

    assert_eq!(text(&json, &["target"]), "greet");
    assert_eq!(
        show_json(at(&json, &["resolved"])),
        "{\"file\":\"sample.py\",\"from\":\"symbol\",\"line\":1}"
    );
    assert_eq!(at(&json, &["count"]).as_u64(), Some(4));
    assert!(json.get("locations").is_none(), "raw Locations must be behind --raw");

    let refs = items(&json, &["references"]);
    assert_eq!(refs.len(), 4);
    for r in refs {
        // Agent-appropriate: 1-indexed line + source text, never a UTF-16 column.
        assert!(r.get("character").is_none(), "references must not leak columns");
        assert!(at(r, &["line"]).as_u64().unwrap() >= 1, "lines are 1-indexed");
        assert!(at(r, &["text"]).as_str().is_some());
    }
    // The declaration, found across the import boundary.
    assert!(refs.iter().any(|r| text(r, &["file"]) == "sample.py"
        && at(r, &["line"]).as_u64() == Some(1)
        && text(r, &["text"]) == "def greet(name: str) -> str:"));
    assert!(refs.iter().any(|r| text(r, &["file"]) == "consumer.py"
        && text(r, &["text"]) == "from sample import greet"));
}

#[test]
fn references_raw_exposes_the_protocol_locations() {
    let (ok, json) = samples().run(references("sample.py", "greet", true));
    assert!(ok, "expected exit 0, got {}", show_json(&json));
    let locs = items(&json, &["locations"]);
    assert_eq!(locs.len(), 4);
    // The raw form keeps the protocol shape (ranges with UTF-16 columns).
    assert!(at(&locs[0], &["range", "start", "character"]).as_u64().is_some());
}

#[test]
fn diagnostics_are_agent_legible() {
    let (ok, json) = samples().run(diagnostics("sample.py", false));
    assert!(ok, "expected exit 0, got {}", show_json(&json));

    assert_eq!(at(&json, &["count"]).as_u64(), Some(1), "the deliberate greet(123) type error");
    assert!(json.get("raw").is_none(), "raw diagnostics must be behind --raw");

    let d = &items(&json, &["diagnostics"])[0];
    assert_eq!(text(d, &["severity"]), "error", "severity is a word, not an int");
    assert_eq!(at(d, &["line"]).as_u64(), Some(6), "1-indexed line of `message = greet(123)`");
    assert_eq!(text(d, &["code"]), "invalid-argument-type");
    assert_eq!(text(d, &["source"]), "ty");
    assert!(text(d, &["text"]).contains("greet(123)"), "the offending source line");
    assert!(d.get("range").is_none(), "no protocol ranges in the rendered diagnostic");
    // Related-location context, also in 1-indexed lines.
    let related = items(d, &["related"]);
    assert!(!related.is_empty());
    assert!(related.iter().all(|r| at(r, &["line"]).as_u64().unwrap() >= 1
        && at(r, &["file"]).as_str().is_some()));
}

#[test]
fn diagnostics_raw_exposes_the_protocol_diagnostics() {
    let (ok, json) = samples().run(diagnostics("sample.py", true));
    assert!(ok, "expected exit 0, got {}", show_json(&json));
    let raw = items(&json, &["raw"]);
    assert_eq!(raw.len(), 1);
    assert!(at(&raw[0], &["range", "start", "line"]).as_u64().is_some(), "raw keeps the protocol range");
}

#[test]
fn usage_errors_are_json_on_stdout_not_clap_prose() {
    let missing = ["<FILE>", "<TARGET>", "<NEW_NAME>"].map(|s| s.to_string()).to_vec();
    let json = mistake_report(&Mistake::MissingArguments(missing), Some(Verb::Rename));
    assert!(text(&json, &["error", "message"]).contains("missing required argument"));
    assert_eq!(text(&json, &["error", "message"]), "missing required argument: <FILE>, <TARGET>, <NEW_NAME>");
    assert_eq!(text(&json, &["error", "usage"]), "lsp4a rename <FILE> <TARGET> <NEW_NAME>");
}

#[test]
fn missing_subcommand_is_a_structured_usage_error() {
    let json = mistake_report(&Mistake::MissingCommand, None);
    assert!(text(&json, &["error", "message"]).contains("subcommand is required"));
}

#[test]
fn other_mistakes_keep_their_words() {
    for (verb, usage) in [
        (None, "lsp4a <COMMAND>"),
        (Some(Verb::Diagnostics), "lsp4a diagnostics <FILE>"),
        (Some(Verb::References), "lsp4a references <FILE> <TARGET>"),
    ] {
        let json = mistake_report(&Mistake::Other("what?".to_string()), verb);
        assert_eq!(
            show_json(&json),
            format!("{{\"error\":{{\"message\":\"what?\",\"usage\":\"{usage}\"}}}}")
        );
    }
}

#[test]
fn the_whole_preview_is_this() {
    let (_, json) = samples().run(rename("sample.py", "greet", "salutation", false, false));
    assert_eq!(
        pretty_json(&json),
        "{
  \"changes\": [
    {
      \"after\": \"from sample import salutation\",
      \"before\": \"from sample import greet\",
      \"file\": \"consumer.py\",
      \"line\": 1
    },
    {
      \"after\": \"reply = salutation(\\\"world\\\")\",
      \"before\": \"reply = greet(\\\"world\\\")\",
      \"file\": \"consumer.py\",
      \"line\": 3
    },
    {
      \"after\": \"def salutation(name: str) -> str:\",
      \"before\": \"def greet(name: str) -> str:\",
      \"file\": \"sample.py\",
      \"line\": 1
    },
    {
      \"after\": \"message = salutation(123)\",
      \"before\": \"message = greet(123)\",
      \"file\": \"sample.py\",
      \"line\": 6
    }
  ],
  \"renamed_to\": \"salutation\",
  \"resolved\": {
    \"file\": \"sample.py\",
    \"from\": \"symbol\",
    \"line\": 1
  },
  \"scope\": {
    \"edits\": 4,
    \"files\": 2
  },
  \"status\": \"preview\",
  \"target\": \"greet\"
}"
    );
}

#[test]
fn references_name_the_file_that_was_asked_about() {
    let (ok, json) = samples().run(references("sample.py", "greet", false));
    assert!(ok);
    assert_eq!(text(&json, &["file"]), "sample.py");
}

/// Diagnoses an empty file with a server that reports `report`.
fn diagnosed(report: &str, raw: bool) -> String {
    let request = DiagnosticsRequest { file: "a.py".to_string(), raw };
    show_json(&render_diagnostics("/ws", &request, "", &json(report)))
}

#[test]
fn diagnostics_that_are_no_list_are_printed_as_they_are() {
    assert_eq!(diagnosed("null", false), "{\"count\":0,\"diagnostics\":null,\"file\":\"a.py\"}");
    assert_eq!(
        diagnosed("{\"a\":1}", true),
        "{\"count\":0,\"diagnostics\":{\"a\":1},\"file\":\"a.py\",\"raw\":{\"a\":1}}"
    );
    assert_eq!(diagnosed("[]", false), "{\"count\":0,\"diagnostics\":[],\"file\":\"a.py\"}");
}

#[test]
fn a_related_place_that_is_no_path_is_shown_by_its_uri() {
    let related = |uri: &str| {
        let report =
            format!("[{{\"relatedInformation\":[{{\"location\":{{\"uri\":\"{uri}\"}}}}]}}]");
        let request = DiagnosticsRequest { file: "a.py".to_string(), raw: false };
        let out = render_diagnostics("/ws", &request, "", &json(&report));
        let place = &items(&items(&out, &["diagnostics"])[0], &["related"])[0];
        text(place, &["file"]).to_string()
    };
    assert_eq!(related("file:///%aé"), "file:///%aé");
    assert_eq!(related("file:///ws/b%20c.py"), "b c.py");
    assert_eq!(related("file:///x.py"), "/x.py");
}

#[test]
fn references_come_in_the_order_of_file_line_and_column() {
    let (_, json) = samples().run(references("sample.py", "0:4", false));
    let seen: Vec<(&str, u64)> = items(&json, &["references"])
        .iter()
        .map(|r| (text(r, &["file"]), at(r, &["line"]).as_u64().unwrap()))
        .collect();
    assert_eq!(seen, vec![("consumer.py", 1), ("consumer.py", 3), ("sample.py", 1), ("sample.py", 6)]);
    assert_eq!(text(&json, &["resolved", "from"]), "position");
}

#[test]
fn the_server_is_spoken_to_in_the_order_of_the_protocol() {
    let mut world = samples();
    world.run(rename("sample.py", "greet", "salutation", true, false));
    let prepare = "textDocument/prepareRename";
    assert_eq!(
        world.heard,
        vec![
            "initialize",
            "initialized",
            "textDocument/didOpen",
            prepare,
            prepare,
            prepare,
            prepare,
            "textDocument/references",
            prepare,
            "textDocument/rename",
            "shutdown",
            "exit",
        ]
    );
}

#[test]
fn a_chatty_server_gets_its_answers() {
    let mut world = samples();
    world.server.chatter = vec![
        "{\"method\":\"window/logMessage\",\"params\":{}}",
        "{\"id\":1,\"method\":\"workspace/configuration\",\"params\":{\"items\":[{},{}]}}",
        "{\"id\":77,\"result\":\"not for us\"}",
    ];
    let (ok, _) = world.run(diagnostics("sample.py", false));
    assert!(ok);
    assert_eq!(world.heard[..3], ["initialize", "answer [null,null]", "initialized"]);
}

#[test]
fn pushed_diagnostics_are_rendered_where_the_pull_has_none() {
    fn answer(method: &str, _: &Json) -> Result<String, String> {
        match method {
            "initialize" => Ok("{}".to_string()),
            "textDocument/diagnostic" => Ok("{\"items\":[]}".to_string()),
            _ => Ok("null".to_string()),
        }
    }
    let mut world = World::new(answer, &[("a b.py", "x = 1   \ny\n")]);
    world.server.chatter = vec![
        "{\"method\":\"textDocument/publishDiagnostics\",\"params\":{\"uri\":\"file:///ws/a%20b.py\",\
         \"diagnostics\":[{\"range\":{\"start\":{\"line\":0}},\"severity\":2,\"message\":\"m\"},\
         {\"severity\":3},{\"severity\":4,\"range\":{\"start\":{\"line\":18446744073709551615}}},{\"severity\":9}]}}",
    ];
    let (ok, json) = world.run(diagnostics("a b.py", false));
    assert!(ok);
    let list = items(&json, &["diagnostics"]);
    assert_eq!(
        show_json(&list[0]),
        "{\"code\":null,\"line\":1,\"message\":\"m\",\"related\":[],\"severity\":\"warning\",\"source\":null,\"text\":\"x = 1\"}"
    );
    let words: Vec<&str> = list.iter().map(|d| text(d, &["severity"])).collect();
    assert_eq!(words, vec!["warning", "information", "hint", "unknown"]);
    assert_eq!(at(&list[2], &["line"]).as_u64(), Some(u64::MAX));
}

#[test]
fn a_symbol_in_strings_only_is_not_renameable() {
    let mut world = World::new(
        |method, _| match method {
            "initialize" => Ok(INIT.to_string()),
            // some servers answer with an error in place of null
            "textDocument/prepareRename" => Err("{\"code\":1}".to_string()),
            other => panic!("{other}"),
        },
        &[("a.py", "\"x\" # x")],
    );
    let (ok, json) = world.run(rename("a.py", "x", "y", false, false));
    assert!(!ok);
    assert_eq!(
        text(&json, &["error", "message"]),
        "2 occurrence(s) of \"x\" in a.py, but none is a renameable symbol (strings/comments?)"
    );
    assert_eq!(items(&json, &["error", "data", "occurrences"]).len(), 2);

    let (ok, json) = world.run(rename("a.py", "0:1", "y", false, false));
    assert!(!ok);
    assert_eq!(
        show_json(&json),
        "{\"error\":{\"message\":\"position (0,1) is not renameable (prepareRename returned null)\"}}"
    );
}

#[test]
fn without_references_several_occurrences_are_ambiguous() {
    let mut world = World::new(
        |method, _| match method {
            "initialize" => Ok("{\"capabilities\":{}}".to_string()),
            "textDocument/prepareRename" => Ok("{\"defaultBehavior\":true}".to_string()),
            other => panic!("{other}"),
        },
        &[("a.py", "x = x")],
    );
    let (ok, json) = world.run(rename("a.py", "x", "y", false, false));
    assert!(!ok);
    assert_eq!(items(&json, &["error", "data", "candidates"]).len(), 2);

    let (ok, json) = world.run(references("a.py", "0:0", false));
    assert!(!ok);
    assert_eq!(
        text(&json, &["error", "message"]),
        "server does not advertise referencesProvider"
    );
}

#[test]
fn failures_of_the_outside_world_are_reported() {
    let (ok, json) = samples().run(diagnostics("gone.py", false));
    assert!(!ok);
    assert_eq!(
        show_json(&json),
        "{\"error\":{\"message\":\"file not found: /ws/gone.py: No such file or directory (os error 2)\"}}"
    );

    let mut other_encoding = World::new(
        |_, _| Ok("{\"capabilities\":{\"positionEncoding\":\"utf-8\"}}".to_string()),
        &[],
    );
    let (ok, json) = other_encoding.run(diagnostics("a.py", false));
    assert!(!ok);
    assert_eq!(
        text(&json, &["error", "message"]),
        "server negotiated positionEncoding \"utf-8\"; only utf-16 is supported"
    );

    let mut deaf = World::new(|_, _| Err("{\"code\":-32601}".to_string()), &[]);
    let (ok, json) = deaf.run(diagnostics("a.py", false));
    assert!(!ok);
    assert_eq!(
        text(&json, &["error", "message"]),
        "server returned error for id 1: {\"code\":-32601}"
    );
}

#[test]
fn a_file_that_cannot_be_read_or_written_fails_the_rename() {
    let edits = |uri: &str| format!("{{\"changes\":{{\"{uri}\":[]}}}}");
    fn answer(method: &str, params: &Json) -> Result<String, String> {
        match method {
            "initialize" => Ok(INIT.to_string()),
            "textDocument/prepareRename" => Ok("{}".to_string()),
            "textDocument/rename" => Ok(text(params, &["newName"]).to_string()),
            _ => Ok("null".to_string()),
        }
    }
    let mut world = World::new(answer, &[("a.py", "x")]);
    let (ok, json) = world.run(rename("a.py", "0:0", &edits("file:///ws/b.py"), true, false));
    assert!(!ok);
    assert_eq!(
        text(&json, &["error", "message"]),
        "reading /ws/b.py: No such file or directory (os error 2)"
    );
    let create = "{\"documentChanges\":[{\"kind\":\"create\"}]}";
    let (ok, json) = world.run(rename("a.py", "0:0", create, false, false));
    assert!(!ok);
    assert_eq!(
        text(&json, &["error", "message"]),
        "WorkspaceEdit resource operation \"create\" not supported in v0"
    );
    let (ok, json) = world.run(rename("a.py", "0:0", "null", true, false));
    assert!(ok);
    assert_eq!(show_json(at(&json, &["scope"])), "{\"edits\":0,\"files\":0}");
}

fn session() -> Session {
    Session::start("/ws".to_string(), "ty server".to_string(), 5, diagnostics("a.py", false)).unwrap().0
}

fn message(action: Action) -> String {
    match action {
        Action::Fail(e) => e.message,
        other => panic!("{other:?}"),
    }
}

#[test]
fn a_session_starts_with_the_server() {
    let e = Session::start("/ws".to_string(), " ".to_string(), 5, diagnostics("a.py", false)).unwrap_err();
    assert_eq!(e.message, "empty --server-cmd");

    let failed = Event::SpawnFailed { missing: false, reason: "why".to_string() };
    assert_eq!(message(session().step(failed)), "spawning language server: ty server: why");

    let missing = Event::SpawnFailed { missing: true, reason: "why".to_string() };
    assert!(message(session().step(missing)).starts_with("language server \"ty\" not found."));
}

#[test]
fn a_session_fails_where_a_frame_cannot_be_sent() {
    let mut s = session();
    assert!(matches!(s.step(Event::Spawned), Action::Locate(p) if p == "/ws"));
    assert!(matches!(s.step(Event::Located(Ok("/ws".to_string()))), Action::Send(_)));
    assert_eq!(message(s.step(Event::SendFailed("Broken pipe".to_string()))), "Broken pipe");
    // and is over
    assert!(matches!(s.step(Event::Sent), Action::Abort));
}

#[test]
fn a_session_gives_up_on_silence() {
    let mut s = session();
    s.step(Event::Spawned);
    s.step(Event::Located(Ok("/ws".to_string())));
    assert!(matches!(s.step(Event::Sent), Action::Receive));
    assert_eq!(
        message(s.step(Event::Incoming(Incoming::Timeout))),
        "timed out after 5s waiting for the server's response"
    );
}

#[test]
fn an_event_out_of_place_ends_a_session() {
    let mut s = session();
    assert!(matches!(s.step(Event::Sent), Action::Abort));
    assert!(matches!(s.step(Event::Spawned), Action::Abort));
}

#[test]
fn a_workspace_that_is_gone_fails_the_run() {
    let mut s = session();
    s.step(Event::Spawned);
    assert_eq!(message(s.step(Event::Located(Err("gone".to_string())))), "gone");
}
