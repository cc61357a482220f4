//! The client's side of the protocol.

use lsp4a::client::{
    dismissal, locations, spawn_error, would_rename, Call, Client, Dismissal, Incoming, Waited,
};
use lsp4a::json::{parse_json, show_json, Json};
use lsp4a::transport::{read_message, Frame};

fn json(text: &str) -> Json {
    parse_json(text.as_bytes()).unwrap()
}

fn client() -> Client {
    Client::start("ty server", 30).unwrap().0
}

fn shown(frame: &[u8]) -> String {
    match read_message(frame, true) {
        Frame::Message { value, used } => {
            assert_eq!(used, frame.len());
            show_json(&value)
        }
        other => panic!("{other:?}"),
    }
}

fn failure(w: Waited) -> String {
    match w {
        Waited::Done(Err(e)) => e,
        other => panic!("{other:?}"),
    }
}

fn result(w: Waited) -> String {
    match w {
        Waited::Done(Ok(j)) => show_json(&j),
        other => panic!("{other:?}"),
    }
}

fn message(text: &str) -> Incoming {
    Incoming::Frame(json(text))
}

#[test]
fn a_command_line_is_split_at_white_space() {
    let (_, words) = Client::start("  ty\tserver  --x ", 1).unwrap();
    assert_eq!(words, vec!["ty", "server", "--x"]);
    assert_eq!(Client::start(" \t ", 1).unwrap_err(), "empty --server-cmd");
}

#[test]
fn requests_are_numbered_from_one() {
    let mut c = client();
    for n in 1..4i64 {
        let Call { id, frame } = c.request("m", json("[1]"));
        assert_eq!(id, n);
        assert_eq!(
            shown(&frame),
            format!("{{\"id\":{n},\"jsonrpc\":\"2.0\",\"method\":\"m\",\"params\":[1]}}")
        );
    }
    assert!(c.can_request());
    assert_eq!(shown(&c.notify("exit", Json::Null)), "{\"jsonrpc\":\"2.0\",\"method\":\"exit\",\"params\":null}");
}

#[test]
fn the_handshake_says_who_and_where_and_what() {
    let mut c = client();
    assert_eq!(
        shown(&c.initialize("/w s").frame),
        "{\"id\":1,\"jsonrpc\":\"2.0\",\"method\":\"initialize\",\"params\":{\
         \"capabilities\":{\"general\":{\"positionEncodings\":[\"utf-16\"]},\"textDocument\":{\
         \"diagnostic\":{},\"publishDiagnostics\":{\"relatedInformation\":true},\"references\":{},\
         \"rename\":{\"prepareSupport\":true},\"synchronization\":{\"didSave\":true}}},\
         \"clientInfo\":{\"name\":\"lsp4a\",\"version\":\"0.1.0\"},\"processId\":null,\
         \"rootUri\":\"file:///w%20s\"}}"
    );
}

#[test]
fn a_server_that_counts_otherwise_is_refused() {
    let mut c = client();
    for ok in ["{}", "{\"capabilities\":{}}", "{\"capabilities\":{\"positionEncoding\":\"utf-16\"}}"] {
        let frame = c.initialized(&json(ok)).unwrap();
        assert_eq!(shown(&frame), "{\"jsonrpc\":\"2.0\",\"method\":\"initialized\",\"params\":{}}");
    }
    assert_eq!(
        c.initialized(&json("{\"capabilities\":{\"positionEncoding\":\"utf-8\"}}")).unwrap_err(),
        "server negotiated positionEncoding \"utf-8\"; only utf-16 is supported"
    );
}

#[test]
fn an_answer_ends_the_wait() {
    let mut c = client();
    assert_eq!(result(c.wait_for_id(4, message("{\"id\":4,\"result\":{\"a\":1}}"))), "{\"a\":1}");
    assert_eq!(result(c.wait_for_id(4, message("{\"id\":4}"))), "null");
    assert_eq!(
        failure(c.wait_for_id(4, message("{\"id\":4,\"error\":{\"code\":-32601}}"))),
        "server returned error for id 4: {\"code\":-32601}"
    );
    for other in ["{\"id\":5,\"result\":1}", "{\"id\":\"4\",\"result\":1}", "{\"id\":4.0}", "{}", "[]"] {
        assert!(matches!(c.wait_for_id(4, message(other)), Waited::More), "{other}");
    }
}

#[test]
fn silence_and_noise_end_the_wait_too() {
    let mut c = client();
    assert_eq!(
        failure(c.wait_for_id(1, Incoming::Timeout)),
        "timed out after 30s waiting for the server's response"
    );
    let mut impatient = Client::start("x", 0).unwrap().0;
    assert_eq!(
        failure(impatient.wait_for_id(1, Incoming::Timeout)),
        "timed out after 0ns waiting for the server's response"
    );
    assert_eq!(failure(c.wait_for_id(1, Incoming::Disconnected)), "server exited mid-request");
    assert_eq!(failure(c.wait_for_id(1, Incoming::Broken("noise".to_string()))), "noise");
}

#[test]
fn a_request_of_the_servers_is_answered_and_never_taken_for_an_answer() {
    let mut c = client();
    let answer = |w: Waited| match w {
        Waited::Answer(frame) => shown(&frame),
        other => panic!("{other:?}"),
    };
    assert_eq!(
        answer(c.wait_for_id(4, message("{\"id\":4,\"method\":\"client/registerCapability\",\"result\":1}"))),
        "{\"id\":4,\"jsonrpc\":\"2.0\",\"result\":null}"
    );
    assert_eq!(
        answer(c.wait_for_id(
            4,
            message("{\"id\":\"q\",\"method\":\"workspace/configuration\",\"params\":{\"items\":[{},{},{}]}}")
        )),
        "{\"id\":\"q\",\"jsonrpc\":\"2.0\",\"result\":[null,null,null]}"
    );
    assert_eq!(
        answer(c.wait_for_id(4, message("{\"id\":0,\"method\":\"workspace/configuration\"}"))),
        "{\"id\":0,\"jsonrpc\":\"2.0\",\"result\":[]}"
    );
    assert!(matches!(c.wait_for_id(4, message("{\"method\":\"window/logMessage\"}")), Waited::More));
}

#[test]
fn pushed_diagnostics_stand_in_for_an_empty_pull() {
    let mut c = client();
    let push = |uri: &str, n: u32| {
        message(&format!(
            "{{\"method\":\"textDocument/publishDiagnostics\",\"params\":{{\"uri\":\"{uri}\",\"diagnostics\":[{n}]}}}}"
        ))
    };
    assert!(matches!(c.wait_for_id(1, push("a", 1)), Waited::More));
    assert!(matches!(c.wait_for_id(1, push("b", 2)), Waited::More));
    assert!(matches!(c.wait_for_id(1, push("a", 3)), Waited::More));
    for report in ["null", "{}", "{\"items\":[]}", "{\"items\":7}"] {
        assert_eq!(show_json(&c.diagnostics_result("a", &json(report))), "[3]", "{report}");
        assert_eq!(show_json(&c.diagnostics_result("b", &json(report))), "[2]", "{report}");
    }
    assert_eq!(show_json(&c.diagnostics_result("a", &json("{\"items\":[9]}"))), "[9]");
    assert_eq!(show_json(&c.diagnostics_result("c", &json("{\"items\":[]}"))), "[]");
    assert_eq!(show_json(&c.diagnostics_result("c", &json("{}"))), "null");
}

#[test]
fn questions_carry_their_place() {
    let mut c = client();
    let place = "\"position\":{\"character\":7,\"line\":3},\"textDocument\":{\"uri\":\"u\"}";
    assert_eq!(
        shown(&c.diagnostics("u").frame),
        "{\"id\":1,\"jsonrpc\":\"2.0\",\"method\":\"textDocument/diagnostic\",\"params\":{\"textDocument\":{\"uri\":\"u\"}}}"
    );
    assert_eq!(
        shown(&c.prepare_rename("u", 3, 7).frame),
        format!("{{\"id\":2,\"jsonrpc\":\"2.0\",\"method\":\"textDocument/prepareRename\",\"params\":{{{place}}}}}")
    );
    let call = c.rename("u", 3, 7, "n", &Ok(json("{}"))).unwrap();
    assert_eq!(
        shown(&call.frame),
        format!("{{\"id\":3,\"jsonrpc\":\"2.0\",\"method\":\"textDocument/rename\",\"params\":{{\"newName\":\"n\",{place}}}}}")
    );
    c.initialized(&json("{\"capabilities\":{\"referencesProvider\":true}}")).unwrap();
    let call = c.references("u", 3, 7).unwrap();
    assert_eq!(
        shown(&call.frame),
        format!("{{\"id\":4,\"jsonrpc\":\"2.0\",\"method\":\"textDocument/references\",\"params\":{{\"context\":{{\"includeDeclaration\":true}},{place}}}}}")
    );
    assert_eq!(
        shown(&c.shutdown().frame),
        "{\"id\":5,\"jsonrpc\":\"2.0\",\"method\":\"shutdown\",\"params\":null}"
    );
}

#[test]
fn a_document_is_handed_over_with_its_language() {
    let (uri, frame) = client().did_open("/w/a b.py", "python", "x\n");
    assert_eq!(uri, "file:///w/a%20b.py");
    assert_eq!(
        shown(&frame),
        "{\"jsonrpc\":\"2.0\",\"method\":\"textDocument/didOpen\",\"params\":{\"textDocument\":{\
         \"languageId\":\"python\",\"text\":\"x\\n\",\"uri\":\"file:///w/a%20b.py\",\"version\":1}}}"
    );
}

#[test]
fn a_place_that_the_server_would_not_rename_is_named() {
    assert!(would_rename(&Ok(json("{\"defaultBehavior\":true}"))));
    assert!(!would_rename(&Ok(Json::Null)));
    assert!(!would_rename(&Err("no".to_string())));
    assert_eq!(
        client().rename("u", 3, 7, "n", &Ok(Json::Null)).unwrap_err(),
        "position (3,7) is not renameable (prepareRename returned null)"
    );
}

#[test]
fn references_need_a_server_that_has_them() {
    let mut c = client();
    for caps in ["{}", "{\"capabilities\":{\"referencesProvider\":null}}"] {
        c.initialized(&json(caps)).unwrap();
        assert_eq!(
            c.references("u", 0, 0).unwrap_err(),
            "server does not advertise referencesProvider"
        );
    }
    assert_eq!(locations(json("[1,2]")).unwrap().len(), 2);
    assert!(locations(Json::Null).unwrap().is_empty());
    assert_eq!(
        locations(json("{\"a\":1}")).unwrap_err(),
        "unexpected references result: {\"a\":1}"
    );
}

#[test]
fn a_missing_server_comes_with_a_way_to_get_it() {
    assert_eq!(
        spawn_error(true, "No such file", "ty server", "ty"),
        "language server \"ty\" not found. Install ty (a standalone binary, no Python) with:\n  \
         curl -LsSf https://astral.sh/ty/install.sh | sh\nthen make sure it's on PATH, or pass \
         --server-cmd for a different server."
    );
    assert_eq!(
        spawn_error(false, "Permission denied", "ty server", "ty"),
        "spawning language server: ty server: Permission denied"
    );
}

#[test]
fn a_server_that_does_not_go_is_killed_in_the_end() {
    assert_eq!(dismissal(0, None), Dismissal::Look);
    assert_eq!(dismissal(0, Some(false)), Dismissal::Wait { millis: 50 });
    assert_eq!(dismissal(0, Some(true)), Dismissal::Gone);
    assert_eq!(dismissal(39, None), Dismissal::Look);
    assert_eq!(dismissal(39, Some(false)), Dismissal::Wait { millis: 50 });
    // after the last wait nobody looks any more
    assert_eq!(dismissal(40, None), Dismissal::Kill);
    let mut looks: u32 = 0;
    let mut waits: u32 = 0;
    let mut waited: u64 = 0;
    while dismissal(waits, None) == Dismissal::Look {
        looks += 1;
        match dismissal(waits, Some(false)) {
            Dismissal::Wait { millis } => waited += millis,
            other => panic!("{other:?}"),
        }
        waits += 1;
    }
    assert_eq!((looks, waits, waited), (40, 40, 2000));
}
