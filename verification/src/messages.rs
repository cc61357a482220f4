//! What goes over the wire: every statement here reads a message member by member, as
//! the server does, and says what the client makes of the server's own.

use vstd::prelude::*;

use crate::client::{
    answer_json, client_capabilities, diagnostic_params, diagnostics_for, encoding_refusal,
    initialize_params, introduced, locations_in, notification_json, open_params, prepare_params,
    references_params, rename_params, renameable, request_json, waited, ClientView, IncomingView,
    WaitedView,
};
use crate::json::{as_i64, as_str, at, get, JsonView, Num};
use crate::results::counted;
use crate::text::decimal;
use crate::transport::message_bytes;
use crate::uri::uri_of;

verus! {

/// Whether a message is a request of that method under that id.
pub open spec fn requests(m: JsonView, id: int, method: Seq<char>) -> bool {
    &&& at(m, "jsonrpc"@) == JsonView::Text("2.0"@)
    &&& as_i64(at(m, "id"@)) == Some(id as i64)
    &&& at(m, "method"@) == JsonView::Text(method)
}

/// Whether a message tells the server something and asks for no answer.
pub open spec fn notifies(m: JsonView, method: Seq<char>) -> bool {
    &&& at(m, "jsonrpc"@) == JsonView::Text("2.0"@)
    &&& get(m, "id"@) is None
    &&& at(m, "method"@) == JsonView::Text(method)
}

/// Whether a message names a document.
pub open spec fn names_document(m: JsonView, uri: Seq<char>) -> bool {
    at(at(at(m, "params"@), "textDocument"@), "uri"@) == JsonView::Text(uri)
}

/// Whether a message names a place in a document, its line and its column.
pub open spec fn names_place(m: JsonView, uri: Seq<char>, line: nat, character: nat) -> bool {
    let position = at(at(m, "params"@), "position"@);
    &&& names_document(m, uri)
    &&& counted(at(position, "line"@), line as int)
    &&& counted(at(position, "character"@), character as int)
}

proof fn lemma_envelope()
    ensures
        "jsonrpc"@ != "id"@ && "jsonrpc"@ != "method"@ && "jsonrpc"@ != "params"@ && "jsonrpc"@
            != "result"@,
        "id"@ != "method"@ && "id"@ != "params"@ && "id"@ != "result"@,
        "method"@ != "params"@ && "method"@ != "result"@,
{
    reveal_strlit("jsonrpc");
    reveal_strlit("id");
    reveal_strlit("method");
    reveal_strlit("params");
    reveal_strlit("result");
    assert("jsonrpc"@.len() == 7);
    assert("id"@.len() == 2);
    assert("method"@.len() == 6);
    assert("params"@.len() == 6);
    assert("result"@.len() == 6);
    assert("method"@[0] == 'm' && "params"@[0] == 'p' && "result"@[0] == 'r');
}

/// A request carries its id, its method and its parameters.
pub proof fn lemma_request(id: int, method: Seq<char>, params: JsonView)
    requires
        i64::MIN <= id <= i64::MAX,
    ensures
        requests(request_json(id, method, params), id, method),
        get(request_json(id, method, params), "params"@) == Some(params),
{
    lemma_envelope();
}

/// A notification carries its method and its parameters and no id, so that the
/// server does not answer it.
pub proof fn lemma_notification(method: Seq<char>, params: JsonView)
    ensures
        notifies(notification_json(method, params), method),
        get(notification_json(method, params), "params"@) == Some(params),
{
    lemma_envelope();
}

proof fn lemma_place_names()
    ensures
        "textDocument"@ != "position"@ && "textDocument"@ != "newName"@ && "textDocument"@
            != "context"@,
        "position"@ != "newName"@ && "position"@ != "context"@,
        "line"@ != "character"@,
{
    reveal_strlit("textDocument");
    reveal_strlit("position");
    reveal_strlit("newName");
    reveal_strlit("context");
    reveal_strlit("line");
    reveal_strlit("character");
    assert("textDocument"@.len() == 12);
    assert("position"@.len() == 8);
    assert("newName"@.len() == 7);
    assert("context"@.len() == 7);
    assert("line"@.len() == 4);
    assert("character"@.len() == 9);
}

/// What the server is asked about a place: the document, the line and the column go
/// where the protocol has them; a rename adds the new name, and a search for
/// references wants the declaration among them.
pub proof fn lemma_questions_about_a_place(
    id: int,
    method: Seq<char>,
    uri: Seq<char>,
    line: nat,
    character: nat,
    new_name: Seq<char>,
)
    requires
        i64::MIN <= id <= i64::MAX,
    ensures
        names_place(
            request_json(id, method, prepare_params(uri, line, character)),
            uri,
            line,
            character,
        ),
        ({
            let m = request_json(id, method, rename_params(uri, line, character, new_name));
            &&& names_place(m, uri, line, character)
            &&& at(at(m, "params"@), "newName"@) == JsonView::Text(new_name)
        }),
        ({
            let m = request_json(id, method, references_params(uri, line, character));
            &&& names_place(m, uri, line, character)
            &&& at(at(at(m, "params"@), "context"@), "includeDeclaration"@) == JsonView::Bool(true)
        }),
        names_document(request_json(id, method, diagnostic_params(uri)), uri),
{
    lemma_request(id, method, prepare_params(uri, line, character));
    lemma_request(id, method, rename_params(uri, line, character, new_name));
    lemma_request(id, method, references_params(uri, line, character));
    lemma_request(id, method, diagnostic_params(uri));
    lemma_place_names();
}

/// Whether a message hands a document to the server.
pub open spec fn opens(m: JsonView, uri: Seq<char>, language: Seq<char>, content: Seq<char>) -> bool {
    let document = at(at(m, "params"@), "textDocument"@);
    &&& notifies(m, "textDocument/didOpen"@)
    &&& at(document, "uri"@) == JsonView::Text(uri)
    &&& at(document, "languageId"@) == JsonView::Text(language)
    &&& at(document, "text"@) == JsonView::Text(content)
    &&& counted(at(document, "version"@), 1)
}

/// A document is handed over with its URI, its language and its text.
pub proof fn lemma_opens(uri: Seq<char>, language: Seq<char>, content: Seq<char>)
    ensures
        opens(
            notification_json("textDocument/didOpen"@, open_params(uri, language, content)),
            uri,
            language,
            content,
        ),
{
    lemma_notification("textDocument/didOpen"@, open_params(uri, language, content));
    reveal_strlit("uri");
    reveal_strlit("languageId");
    reveal_strlit("version");
    reveal_strlit("text");
    assert("uri"@.len() == 3);
    assert("languageId"@.len() == 10);
    assert("version"@.len() == 7);
    assert("text"@.len() == 4);
}

/// Whether a message greets the server: it names the workspace, and offers columns
/// counted in UTF-16 and nothing else.
pub open spec fn greets(m: JsonView, id: int, root: Seq<char>) -> bool {
    let params = at(m, "params"@);
    &&& requests(m, id, "initialize"@)
    &&& at(params, "rootUri"@) == JsonView::Text(uri_of(root))
    &&& at(at(at(params, "capabilities"@), "general"@), "positionEncodings"@) == JsonView::Array(
        seq![JsonView::Text("utf-16"@)],
    )
    &&& at(
        at(at(at(params, "capabilities"@), "textDocument"@), "rename"@),
        "prepareSupport"@,
    ) == JsonView::Bool(true)
    &&& at(
        at(at(at(params, "capabilities"@), "textDocument"@), "publishDiagnostics"@),
        "relatedInformation"@,
    ) == JsonView::Bool(true)
    &&& get(params, "processId"@) == Some(JsonView::Null)
}

/// The greeting names the workspace and offers UTF-16 columns only.
pub proof fn lemma_greets(id: int, root: Seq<char>)
    requires
        i64::MIN <= id <= i64::MAX,
    ensures
        greets(request_json(id, "initialize"@, initialize_params(root)), id, root),
{
    lemma_request(id, "initialize"@, initialize_params(root));
    reveal_strlit("processId");
    reveal_strlit("clientInfo");
    reveal_strlit("rootUri");
    reveal_strlit("capabilities");
    reveal_strlit("general");
    reveal_strlit("textDocument");
    reveal_strlit("synchronization");
    reveal_strlit("publishDiagnostics");
    reveal_strlit("rename");
    reveal_strlit("references");
    reveal_strlit("diagnostic");
    assert("processId"@.len() == 9);
    assert("clientInfo"@.len() == 10);
    assert("rootUri"@.len() == 7);
    assert("capabilities"@.len() == 12);
    assert("general"@.len() == 7);
    assert("textDocument"@.len() == 12);
    assert("synchronization"@.len() == 15);
    assert("publishDiagnostics"@.len() == 18);
    assert("rename"@.len() == 6);
    assert("references"@.len() == 10);
    assert("diagnostic"@.len() == 10);
    assert(at(client_capabilities(), "general"@) is Object);
}

// ---------------------------------------------------------------------------
// What comes back
// ---------------------------------------------------------------------------

/// Whether a message is the server's answer to the request with that id.
pub open spec fn answers(msg: JsonView, id: int) -> bool {
    &&& as_str(at(msg, "method"@)) is None
    &&& as_i64(at(msg, "id"@)) == Some(id as i64)
}

/// The wait for an answer ends with the result of the message that carries the
/// request's id, or with a failure where that message has an error; it goes on at
/// any other message, and what it has learnt stays as it was.
pub proof fn lemma_own_answer(c: ClientView, id: int, other: int, msg: JsonView)
    requires
        i64::MIN <= id <= i64::MAX,
        i64::MIN <= other <= i64::MAX,
        answers(msg, other),
    ensures
        ({
            let (after, w) = waited(c, id, IncomingView::Frame(msg));
            &&& after == c
            &&& id != other ==> w is More
            &&& id == other && get(msg, "error"@) is None ==> w == WaitedView::Done(
                Ok(at(msg, "result"@)),
            )
            &&& id == other && get(msg, "error"@) is Some ==> match w {
                WaitedView::Done(Err(_)) => true,
                _ => false,
            }
        }),
{
}

/// What breaks a wait off: what is no message, silence, and the end of the stream.
/// A broken message fails with its own reason.
pub proof fn lemma_broken_waits(c: ClientView, id: int, why: Seq<char>)
    ensures
        waited(c, id, IncomingView::Broken(why)) == (c, WaitedView::Done(Err(why))),
        match waited(c, id, IncomingView::Timeout) {
            (after, WaitedView::Done(Err(e))) => after == c && (c.timeout > 0 ==> exists|
                pre: Seq<char>,
                post: Seq<char>,
            | e == #[trigger] (pre + decimal(c.timeout) + post)),
            _ => false,
        },
        match waited(c, id, IncomingView::Disconnected) {
            (after, WaitedView::Done(Err(_))) => after == c,
            _ => false,
        },
{
    if c.timeout > 0 {
        let e = "timed out after "@ + crate::client::duration_text(c.timeout)
            + " waiting for the server's response"@;
        assert(e =~= "timed out after "@ + decimal(c.timeout) + ("s"@
            + " waiting for the server's response"@));
    }
}

/// A question of the server's is answered under the server's id. Asked for
/// configuration, the client answers with a null for each item; asked for anything
/// else, with null.
pub proof fn lemma_questions_answered(
    c: ClientView,
    id: int,
    msg: JsonView,
    method: Seq<char>,
    server_id: JsonView,
)
    requires
        at(msg, "method"@) == JsonView::Text(method),
        get(msg, "id"@) == Some(server_id),
    ensures
        match waited(c, id, IncomingView::Frame(msg)) {
            (after, WaitedView::Answer(frame)) => {
                &&& after == c
                &&& exists|m: JsonView| #[trigger]
                    message_bytes(m) == frame && at(m, "jsonrpc"@) == JsonView::Text("2.0"@)
                        && get(m, "id"@) == Some(server_id) && get(m, "method"@) is None
                        && get(m, "error"@) is None && match get(m, "result"@) {
                        Some(JsonView::Array(nulls)) => {
                            &&& method == "workspace/configuration"@
                            &&& forall|k: int|
                                0 <= k < nulls.len() ==> #[trigger] nulls[k] == JsonView::Null
                            &&& match at(at(msg, "params"@), "items"@) {
                                JsonView::Array(items) => nulls.len() == items.len(),
                                _ => nulls.len() == 0,
                            }
                        },
                        Some(r) => r == JsonView::Null && method != "workspace/configuration"@,
                        None => false,
                    }
            },
            _ => false,
        },
{
    lemma_envelope();
    reveal_strlit("error");
    reveal_strlit("jsonrpc");
    reveal_strlit("id");
    reveal_strlit("result");
    assert("error"@.len() == 5);
    assert("jsonrpc"@.len() == 7);
    assert("id"@.len() == 2);
    assert("result"@.len() == 6);
    let m = answer_json(server_id, crate::client::stock_result(method, msg));
    assert(get(m, "error"@) is None);
    assert(get(m, "result"@) == Some(crate::client::stock_result(method, msg)));
    assert(message_bytes(m) == message_bytes(m));
}

/// A note of the server's is no answer; only pushed diagnostics are kept, those of
/// one document apart from those of another.
pub proof fn lemma_notes_are_read(c: ClientView, id: int, msg: JsonView, method: Seq<char>)
    requires
        at(msg, "method"@) == JsonView::Text(method),
        get(msg, "id"@) is None,
    ensures
        waited(c, id, IncomingView::Frame(msg)).1 is More,
        method != "textDocument/publishDiagnostics"@ ==> waited(
            c,
            id,
            IncomingView::Frame(msg),
        ).0 == c,
        forall|uri: Seq<char>|
            at(at(msg, "params"@), "uri"@) != JsonView::Text(uri) && #[trigger] c.pushed.contains_key(
                uri,
            ) ==> waited(c, id, IncomingView::Frame(msg)).0.pushed.contains_key(uri) && waited(
                c,
                id,
                IncomingView::Frame(msg),
            ).0.pushed[uri] == c.pushed[uri],
{
}

/// The server's word on columns is taken: UTF-16, said or unsaid, is worked with, and
/// any other encoding is refused. What the server can do is remembered.
pub proof fn lemma_only_utf16(c: ClientView, init: JsonView, encoding: Seq<char>)
    ensures
        introduced(c, init).capabilities == at(init, "capabilities"@),
        introduced(c, init).next_id == c.next_id,
        introduced(c, init).pushed == c.pushed,
        at(at(init, "capabilities"@), "positionEncoding"@) == JsonView::Null ==> encoding_refusal(
            init,
        ) is None,
        at(at(init, "capabilities"@), "positionEncoding"@) == JsonView::Text(encoding) ==> (
        encoding_refusal(init) is None <==> encoding == "utf-16"@),
{
}

/// The diagnostics that the server reports when asked win over those it pushed; only
/// where it reports none are the pushed ones of the same document taken.
pub proof fn lemma_reported_before_pushed(
    c: ClientView,
    uri: Seq<char>,
    report: JsonView,
    list: Seq<JsonView>,
)
    requires
        at(report, "items"@) == JsonView::Array(list),
    ensures
        list.len() > 0 ==> diagnostics_for(c, uri, report) == JsonView::Array(list),
        list.len() == 0 && c.pushed.contains_key(uri) ==> diagnostics_for(c, uri, report)
            == c.pushed[uri],
        list.len() == 0 && !c.pushed.contains_key(uri) ==> diagnostics_for(c, uri, report)
            == JsonView::Array(list),
        c.pushed.contains_key(uri) ==> diagnostics_for(c, uri, JsonView::Null) == c.pushed[uri],
{
}

/// A place can be renamed where the server gives something for it: neither null nor a
/// failure will do. Locations are an array's items, none where the server says null,
/// and nothing else is a list of locations.
pub proof fn lemma_replies_are_read(
    reply: JsonView,
    why: Seq<char>,
    list: Seq<JsonView>,
    n: Num,
    b: bool,
)
    ensures
        renameable(Ok(reply)) <==> reply != JsonView::Null,
        !renameable(Err(why)),
        locations_in(JsonView::Array(list)) == Ok::<Seq<JsonView>, Seq<char>>(list),
        locations_in(JsonView::Null) == Ok::<Seq<JsonView>, Seq<char>>(Seq::empty()),
        locations_in(JsonView::Text(why)) is Err,
        locations_in(JsonView::Num(n)) is Err,
        locations_in(JsonView::Bool(b)) is Err,
{
}

} // verus!
