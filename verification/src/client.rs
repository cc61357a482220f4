//! The client's side of the protocol: what it says to a server, and what it makes
//! of what the server says.
//!
//! The client holds no pipe and no process. Its methods give the frames to send,
//! and take what was received.

use vstd::prelude::*;

use crate::json::{
    array, as_array, as_i64, as_str, at, canonical, copy_of, get, json_text, member, show_json,
    signed, text, text_in, unsigned, views, Json, JsonView, Members, Num,
};
use crate::text::{
    chars_of, debug_text, decimal, decimal_text, ends_with, lemma_parts_of_message, mentions,
    owned, rows, same_text, signed_decimal, signed_text, str_debug, text_of, words, words_of,
};
use crate::transport::{message_bytes, send_message};
use crate::uri::{path_to_uri, uri_of};

verus! {

/// One client's state: the id of its last request, how long it waits for an
/// answer (in seconds), the diagnostics pushed at it by document, and what the
/// server can do.
#[derive(Debug)]
pub struct Client {
    next_id: i64,
    timeout: u64,
    pushed_diagnostics: Members,
    pub capabilities: Json,
}

/// What a client knows.
pub struct ClientView {
    pub next_id: int,
    pub timeout: nat,
    pub pushed: Map<Seq<char>, JsonView>,
    pub capabilities: JsonView,
}

impl View for Client {
    type V = ClientView;

    closed spec fn view(&self) -> ClientView {
        ClientView {
            next_id: self.next_id as int,
            timeout: self.timeout as nat,
            pushed: self.pushed_diagnostics@,
            capabilities: self.capabilities@,
        }
    }
}

/// A request that is to be sent: its id, and its frame.
#[derive(Debug)]
pub struct Call {
    pub id: i64,
    pub frame: Vec<u8>,
}

// ---------------------------------------------------------------------------
// Messages
// ---------------------------------------------------------------------------

/// An object without members.
pub open spec fn no_members() -> Map<Seq<char>, JsonView> {
    Map::empty()
}

/// An id of the client's.
pub open spec fn id_json(id: int) -> JsonView {
    JsonView::Num(canonical(Num::Negative(id as i64)))
}

/// An unsigned number.
pub open spec fn count_json(n: nat) -> JsonView {
    JsonView::Num(Num::Unsigned(n as u64))
}

/// A request.
pub open spec fn request_json(id: int, method: Seq<char>, params: JsonView) -> JsonView {
    JsonView::Object(
        no_members().insert("jsonrpc"@, JsonView::Text("2.0"@)).insert("id"@, id_json(id)).insert(
            "method"@,
            JsonView::Text(method),
        ).insert("params"@, params),
    )
}

/// A notification.
pub open spec fn notification_json(method: Seq<char>, params: JsonView) -> JsonView {
    JsonView::Object(
        no_members().insert("jsonrpc"@, JsonView::Text("2.0"@)).insert(
            "method"@,
            JsonView::Text(method),
        ).insert("params"@, params),
    )
}

/// The answer to a request of the server's.
pub open spec fn answer_json(id: JsonView, result: JsonView) -> JsonView {
    JsonView::Object(
        no_members().insert("jsonrpc"@, JsonView::Text("2.0"@)).insert("id"@, id).insert(
            "result"@,
            result,
        ),
    )
}

/// A document by its URI.
pub open spec fn document_json(uri: Seq<char>) -> JsonView {
    JsonView::Object(no_members().insert("uri"@, JsonView::Text(uri)))
}

/// A position.
pub open spec fn position_json(line: nat, character: nat) -> JsonView {
    JsonView::Object(
        no_members().insert("line"@, count_json(line)).insert("character"@, count_json(character)),
    )
}

/// The parameters that name a place in a document.
pub open spec fn place_members(uri: Seq<char>, line: nat, character: nat) -> Map<
    Seq<char>,
    JsonView,
> {
    no_members().insert("textDocument"@, document_json(uri)).insert(
        "position"@,
        position_json(line, character),
    )
}

/// What the client can do.
pub open spec fn client_capabilities() -> JsonView {
    JsonView::Object(
        no_members().insert(
            "general"@,
            JsonView::Object(
                no_members().insert(
                    "positionEncodings"@,
                    JsonView::Array(seq![JsonView::Text("utf-16"@)]),
                ),
            ),
        ).insert(
            "textDocument"@,
            JsonView::Object(
                no_members().insert(
                    "synchronization"@,
                    JsonView::Object(no_members().insert("didSave"@, JsonView::Bool(true))),
                ).insert(
                    "publishDiagnostics"@,
                    JsonView::Object(
                        no_members().insert("relatedInformation"@, JsonView::Bool(true)),
                    ),
                ).insert(
                    "rename"@,
                    JsonView::Object(no_members().insert("prepareSupport"@, JsonView::Bool(true))),
                ).insert("references"@, JsonView::Object(no_members())).insert(
                    "diagnostic"@,
                    JsonView::Object(no_members()),
                ),
            ),
        ),
    )
}

/// The parameters of the handshake.
pub open spec fn initialize_params(root: Seq<char>) -> JsonView {
    JsonView::Object(
        no_members().insert("processId"@, JsonView::Null).insert(
            "clientInfo"@,
            JsonView::Object(
                no_members().insert("name"@, JsonView::Text("lsp4a"@)).insert(
                    "version"@,
                    JsonView::Text("0.1.0"@),
                ),
            ),
        ).insert("rootUri"@, JsonView::Text(uri_of(root))).insert(
            "capabilities"@,
            client_capabilities(),
        ),
    )
}

/// The parameters that hand a document's text to the server.
pub open spec fn open_params(uri: Seq<char>, language: Seq<char>, content: Seq<char>) -> JsonView {
    JsonView::Object(
        no_members().insert(
            "textDocument"@,
            JsonView::Object(
                no_members().insert("uri"@, JsonView::Text(uri)).insert(
                    "languageId"@,
                    JsonView::Text(language),
                ).insert("version"@, count_json(1)).insert("text"@, JsonView::Text(content)),
            ),
        ),
    )
}

/// The parameters of a pull of diagnostics.
pub open spec fn diagnostic_params(uri: Seq<char>) -> JsonView {
    JsonView::Object(no_members().insert("textDocument"@, document_json(uri)))
}

/// The parameters of a question for the place of a rename.
pub open spec fn prepare_params(uri: Seq<char>, line: nat, character: nat) -> JsonView {
    JsonView::Object(place_members(uri, line, character))
}

/// The parameters of a rename.
pub open spec fn rename_params(
    uri: Seq<char>,
    line: nat,
    character: nat,
    new_name: Seq<char>,
) -> JsonView {
    JsonView::Object(
        place_members(uri, line, character).insert("newName"@, JsonView::Text(new_name)),
    )
}

/// The parameters of a search for references, the declaration among them.
pub open spec fn references_params(uri: Seq<char>, line: nat, character: nat) -> JsonView {
    JsonView::Object(
        place_members(uri, line, character).insert(
            "context"@,
            JsonView::Object(no_members().insert("includeDeclaration"@, JsonView::Bool(true))),
        ),
    )
}

fn document(uri: &str) -> (r: Json)
    ensures
        r@ == document_json(uri@),
{
    Members::new().with("uri", text(uri)).object()
}

fn place(uri: &str, line: usize, character: usize) -> (r: Members)
    ensures
        r@ == place_members(uri@, line as nat, character as nat),
{
    let position = Members::new().with("line", unsigned(line as u64)).with(
        "character",
        unsigned(character as u64),
    ).object();
    Members::new().with("textDocument", document(uri)).with("position", position)
}

fn flag(name: &str) -> (r: Json)
    ensures
        r@ == JsonView::Object(no_members().insert(name@, JsonView::Bool(true))),
{
    Members::new().with(name, Json::Bool(true)).object()
}

fn capabilities() -> (r: Json)
    ensures
        r@ == client_capabilities(),
{
    let mut encodings: Vec<Json> = Vec::new();
    encodings.push(text("utf-16"));
    assert(views(encodings@) =~= seq![JsonView::Text("utf-16"@)]);
    let general = Members::new().with("positionEncodings", array(encodings)).object();
    let documents = Members::new().with("synchronization", flag("didSave")).with(
        "publishDiagnostics",
        flag("relatedInformation"),
    ).with("rename", flag("prepareSupport")).with("references", Members::new().object()).with(
        "diagnostic",
        Members::new().object(),
    ).object();
    Members::new().with("general", general).with("textDocument", documents).object()
}

// ---------------------------------------------------------------------------
// Waiting for an answer
// ---------------------------------------------------------------------------

/// What came from the server while the client waited.
#[derive(Debug)]
pub enum Incoming {
    /// A message.
    Frame(Json),
    /// Something that is no message, and why.
    Broken(String),
    /// Nothing, for as long as the client waits.
    Timeout,
    /// The end of the stream.
    Disconnected,
}

/// What came from the server.
pub enum IncomingView {
    Frame(JsonView),
    Broken(Seq<char>),
    Timeout,
    Disconnected,
}

impl View for Incoming {
    type V = IncomingView;

    open spec fn view(&self) -> IncomingView {
        match *self {
            Incoming::Frame(j) => IncomingView::Frame(j@),
            Incoming::Broken(e) => IncomingView::Broken(e@),
            Incoming::Timeout => IncomingView::Timeout,
            Incoming::Disconnected => IncomingView::Disconnected,
        }
    }
}

/// A reply: what the server made of a request, or why there is nothing.
pub open spec fn reply_view(r: Result<Json, String>) -> Result<JsonView, Seq<char>> {
    match r {
        Ok(j) => Ok(j@),
        Err(e) => Err(e@),
    }
}

/// How waiting goes on.
#[derive(Debug)]
pub enum Waited {
    /// The answer is still to come.
    More,
    /// The server asked something itself: this frame answers it, and the client's
    /// own answer is still to come.
    Answer(Vec<u8>),
    /// The wait is over.
    Done(Result<Json, String>),
}

/// How waiting goes on.
pub enum WaitedView {
    More,
    Answer(Seq<u8>),
    Done(Result<JsonView, Seq<char>>),
}

impl View for Waited {
    type V = WaitedView;

    open spec fn view(&self) -> WaitedView {
        match *self {
            Waited::More => WaitedView::More,
            Waited::Answer(f) => WaitedView::Answer(f@),
            Waited::Done(r) => WaitedView::Done(reply_view(r)),
        }
    }
}

/// A number of seconds, as a duration is shown.
pub open spec fn duration_text(seconds: nat) -> Seq<char> {
    if seconds == 0 {
        "0ns"@
    } else {
        decimal(seconds) + "s"@
    }
}

/// The minimal answer to a request of the server's: a null for each item where
/// it asks for configuration, null otherwise.
pub open spec fn stock_result(method: Seq<char>, msg: JsonView) -> JsonView {
    if method == "workspace/configuration"@ {
        match as_array(at(at(msg, "params"@), "items"@)) {
            Some(items) => JsonView::Array(Seq::new(items.len(), |i: int| JsonView::Null)),
            None => JsonView::Array(Seq::empty()),
        }
    } else {
        JsonView::Null
    }
}

/// A client that keeps the diagnostics of a message, where it brings some.
pub open spec fn stashed(c: ClientView, method: Seq<char>, msg: JsonView) -> ClientView {
    let params = at(msg, "params"@);
    match as_str(at(params, "uri"@)) {
        Some(uri) => if method == "textDocument/publishDiagnostics"@ {
            ClientView { pushed: c.pushed.insert(uri, at(params, "diagnostics"@)), ..c }
        } else {
            c
        },
        None => c,
    }
}

/// What a client that waits for the answer to request `id` makes of what came.
pub open spec fn waited(c: ClientView, id: int, incoming: IncomingView) -> (
    ClientView,
    WaitedView,
) {
    match incoming {
        IncomingView::Broken(e) => (c, WaitedView::Done(Err(e))),
        IncomingView::Timeout => (
            c,
            WaitedView::Done(
                Err(
                    "timed out after "@ + duration_text(c.timeout)
                        + " waiting for the server's response"@,
                ),
            ),
        ),
        IncomingView::Disconnected => (c, WaitedView::Done(Err("server exited mid-request"@))),
        IncomingView::Frame(msg) => match as_str(at(msg, "method"@)) {
            Some(method) => match get(msg, "id"@) {
                Some(server_id) => (
                    c,
                    WaitedView::Answer(
                        message_bytes(answer_json(server_id, stock_result(method, msg))),
                    ),
                ),
                None => (stashed(c, method, msg), WaitedView::More),
            },
            None => if as_i64(at(msg, "id"@)) == Some(id as i64) {
                match get(msg, "error"@) {
                    Some(err) => (
                        c,
                        WaitedView::Done(
                            Err(
                                "server returned error for id "@ + signed_decimal(id) + ": "@
                                    + json_text(err),
                            ),
                        ),
                    ),
                    None => (c, WaitedView::Done(Ok(at(msg, "result"@)))),
                }
            } else {
                (c, WaitedView::More)
            },
        },
    }
}

/// A list of nulls.
fn nulls(n: usize) -> (r: Json)
    ensures
        r@ == JsonView::Array(Seq::new(n as nat, |i: int| JsonView::Null)),
{
    let mut out: Vec<Json> = Vec::new();
    let mut i: usize = 0;
    while i < n
        invariant
            i <= n,
            views(out@) == Seq::new(i as nat, |k: int| JsonView::Null),
        decreases n - i,
    {
        let ghost before = out@;
        out.push(Json::Null);
        i += 1;
        assert(views(out@) =~= views(before).push(JsonView::Null));
        assert(views(out@) =~= Seq::new(i as nat, |k: int| JsonView::Null));
    }
    array(out)
}

fn stock_answer(method: &str, msg: &Json) -> (r: Json)
    ensures
        r@ == stock_result(method@, msg@),
{
    if same_text(method, "workspace/configuration") {
        let items = member(msg.get("params"), "items");
        let n: usize = match items {
            Some(v) => match v.as_array() {
                Some(list) => list.len(),
                None => 0,
            },
            None => 0,
        };
        assert(Seq::new(0, |i: int| JsonView::Null) =~= Seq::empty());
        nulls(n)
    } else {
        Json::Null
    }
}

fn timeout_text(seconds: u64) -> (r: String)
    ensures
        r@ == "timed out after "@ + duration_text(seconds as nat)
            + " waiting for the server's response"@,
{
    let mut m = owned("timed out after ");
    if seconds == 0 {
        m.append("0ns");
    } else {
        let mut d = decimal_text(seconds);
        d.append("s");
        m.append(d.as_str());
    }
    m.append(" waiting for the server's response");
    m
}

// ---------------------------------------------------------------------------
// The client
// ---------------------------------------------------------------------------

/// What a failure to start the server says. A missing server is the common case,
/// so the message tells how to get one; other failures keep the system's words.
pub open spec fn spawn_message(
    missing: bool,
    reason: Seq<char>,
    server_cmd: Seq<char>,
    cmd: Seq<char>,
) -> Seq<char> {
    if missing {
        "language server "@ + str_debug(cmd)
            + " not found. Install ty (a standalone binary, no Python) with:\n  "@
            + "curl -LsSf https://astral.sh/ty/install.sh | sh\n"@
            + "then make sure it's on PATH, or pass --server-cmd for a different server."@
    } else {
        "spawning language server: "@ + server_cmd + ": "@ + reason
    }
}

/// Turns a failure to start the server into a message that can be acted on.
pub fn spawn_error(missing: bool, reason: &str, server_cmd: &str, cmd: &str) -> (r: String)
    ensures
        r@ == spawn_message(missing, reason@, server_cmd@, cmd@),
{
    if missing {
        let mut m = owned("language server ");
        let shown = debug_text(cmd);
        m.append(shown.as_str());
        m.append(" not found. Install ty (a standalone binary, no Python) with:\n  ");
        m.append("curl -LsSf https://astral.sh/ty/install.sh | sh\n");
        m.append("then make sure it's on PATH, or pass --server-cmd for a different server.");
        m
    } else {
        let mut m = owned("spawning language server: ");
        m.append(server_cmd);
        m.append(": ");
        m.append(reason);
        m
    }
}

/// A client that has not spoken yet.
pub open spec fn fresh_client(timeout: nat) -> ClientView {
    ClientView { next_id: 0, timeout, pushed: Map::empty(), capabilities: JsonView::Null }
}

/// A client that has sent one request more.
pub open spec fn after_request(c: ClientView) -> ClientView {
    ClientView { next_id: c.next_id + 1, ..c }
}

/// Whether a call is the client's next request, with that method and those parameters.
pub open spec fn is_call(call: Call, c: ClientView, method: Seq<char>, params: JsonView) -> bool {
    &&& call.id == c.next_id + 1
    &&& call.frame@ == message_bytes(request_json(c.next_id + 1, method, params))
}

/// A client that knows what the server can do.
pub open spec fn introduced(c: ClientView, init: JsonView) -> ClientView {
    ClientView { capabilities: at(init, "capabilities"@), ..c }
}

/// Why a server is refused: it counts columns in something else than UTF-16.
pub open spec fn encoding_refusal(init: JsonView) -> Option<Seq<char>> {
    match as_str(at(at(init, "capabilities"@), "positionEncoding"@)) {
        Some(enc) => if enc == "utf-16"@ {
            None
        } else {
            Some(
                "server negotiated positionEncoding "@ + str_debug(enc)
                    + "; only utf-16 is supported"@,
            )
        },
        None => None,
    }
}

/// The end of the handshake.
pub open spec fn initialized_frame() -> Seq<u8> {
    message_bytes(notification_json("initialized"@, JsonView::Object(no_members())))
}

/// The diagnostics of a document: what the pull gave, or what was pushed where it
/// gave none.
pub open spec fn diagnostics_for(c: ClientView, uri: Seq<char>, report: JsonView) -> JsonView {
    let items = at(report, "items"@);
    match as_array(items) {
        Some(list) if list.len() > 0 => items,
        _ => if c.pushed.contains_key(uri) {
            c.pushed[uri]
        } else {
            items
        },
    }
}

/// Whether the server would rename at a place: it answered, and not with null.
/// An error is the same answer as null.
pub open spec fn renameable(reply: Result<JsonView, Seq<char>>) -> bool {
    match reply {
        Ok(j) => j != JsonView::Null,
        Err(_) => false,
    }
}

/// Why a place is not renamed.
pub open spec fn not_renameable_message(line: nat, character: nat) -> Seq<char> {
    "position ("@ + decimal(line) + ","@ + decimal(character)
        + ") is not renameable (prepareRename returned null)"@
}

/// The locations in an answer to a search for references.
pub open spec fn locations_in(reply: JsonView) -> Result<Seq<JsonView>, Seq<char>> {
    match reply {
        JsonView::Array(locations) => Ok(locations),
        JsonView::Null => Ok(Seq::empty()),
        other => Err("unexpected references result: "@ + json_text(other)),
    }
}

impl Client {
    /// A client for the server that a command line starts, and the words of that
    /// command line: the program, then its arguments.
    pub fn start(server_cmd: &str, timeout: u64) -> (r: Result<(Client, Vec<String>), String>)
        ensures
            match r {
                Ok((c, list)) => c@ == fresh_client(timeout as nat) && list@.len() > 0
                    && list@.map_values(|s: String| s@) == words_of(server_cmd@),
                Err(e) => words_of(server_cmd@).len() == 0 && e@ == "empty --server-cmd"@,
            },
    {
        let chars = chars_of(server_cmd);
        let parts = words(&chars);
        assert(rows(parts@).len() == parts@.len());
        if parts.len() == 0 {
            return Err(owned("empty --server-cmd"));
        }
        let mut list: Vec<String> = Vec::new();
        let mut i: usize = 0;
        while i < parts.len()
            invariant
                i <= parts@.len(),
                list@.len() == i,
                forall|k: int| 0 <= k < i ==> (#[trigger] list@[k])@ == parts@[k]@,
            decreases parts@.len() - i,
        {
            let word = text_of(&parts[i], 0, parts[i].len());
            assert(word@ =~= parts@[i as int]@);
            list.push(word);
            i += 1;
        }
        assert(list@.map_values(|s: String| s@) =~= rows(parts@));
        let client = Client {
            next_id: 0,
            timeout,
            pushed_diagnostics: Members::new(),
            capabilities: Json::Null,
        };
        Ok((client, list))
    }

    /// Whether another request can be numbered.
    pub fn can_request(&self) -> (r: bool)
        ensures
            r == (self@.next_id < i64::MAX),
    {
        self.next_id < i64::MAX
    }

    /// The next request: its id is one more than that of the last.
    pub fn request(&mut self, method: &str, params: Json) -> (r: Call)
        requires
            old(self)@.next_id < i64::MAX,
        ensures
            final(self)@ == after_request(old(self)@),
            is_call(r, old(self)@, method@, params@),
    {
        self.next_id = self.next_id + 1;
        let msg = Members::new().with("jsonrpc", text("2.0")).with("id", signed(self.next_id)).with(
            "method",
            text(method),
        ).with("params", params).object();
        Call { id: self.next_id, frame: send_message(&msg) }
    }

    /// The frame of a notification.
    pub fn notify(&self, method: &str, params: Json) -> (r: Vec<u8>)
        ensures
            r@ == message_bytes(notification_json(method@, params@)),
    {
        let msg = Members::new().with("jsonrpc", text("2.0")).with("method", text(method)).with(
            "params",
            params,
        ).object();
        send_message(&msg)
    }

    /// Takes what came while the client waits for the answer to request `id`.
    /// Diagnostics that the server pushes are kept, other notifications passed
    /// over. A request of the server's gets a stock answer; its ids are its own, so
    /// it is never taken for an answer.
    pub fn wait_for_id(&mut self, id: i64, incoming: Incoming) -> (r: Waited)
        ensures
            (final(self)@, r@) == waited(old(self)@, id as int, incoming@),
    {
        let msg = match incoming {
            Incoming::Frame(msg) => msg,
            Incoming::Broken(e) => return Waited::Done(Err(e)),
            Incoming::Timeout => return Waited::Done(Err(timeout_text(self.timeout))),
            Incoming::Disconnected => return Waited::Done(Err(owned("server exited mid-request"))),
        };
        if let Some(method) = text_in(msg.get("method")) {
            if let Some(server_id) = msg.get("id") {
                let answer = Members::new().with("jsonrpc", text("2.0")).with(
                    "id",
                    server_id.duplicate(),
                ).with("result", stock_answer(method, &msg)).object();
                return Waited::Answer(send_message(&answer));
            }
            if same_text(method, "textDocument/publishDiagnostics") {
                let params = msg.get("params");
                if let Some(uri) = text_in(member(params, "uri")) {
                    let diagnostics = copy_of(member(params, "diagnostics"));
                    self.pushed_diagnostics.put(uri, diagnostics);
                }
            }
            return Waited::More;
        }
        let ours = match msg.get("id") {
            Some(v) => match v.as_i64() {
                Some(n) => n == id,
                None => false,
            },
            None => false,
        };
        if !ours {
            return Waited::More;
        }
        match msg.get("error") {
            Some(err) => {
                let mut m = owned("server returned error for id ");
                let number = signed_text(id);
                m.append(number.as_str());
                m.append(": ");
                let shown = show_json(err);
                m.append(shown.as_str());
                Waited::Done(Err(m))
            },
            None => Waited::Done(Ok(copy_of(msg.get("result")))),
        }
    }

    /// The handshake: who the client is, where it works and what it can do.
    pub fn initialize(&mut self, root: &str) -> (r: Call)
        requires
            old(self)@.next_id < i64::MAX,
        ensures
            final(self)@ == after_request(old(self)@),
            is_call(r, old(self)@, "initialize"@, initialize_params(root@)),
    {
        let info = Members::new().with("name", text("lsp4a")).with("version", text("0.1.0")).object();
        let uri = path_to_uri(root);
        let params = Members::new().with("processId", Json::Null).with("clientInfo", info).with(
            "rootUri",
            text(uri.as_str()),
        ).with("capabilities", capabilities()).object();
        self.request("initialize", params)
    }

    /// Takes the server's side of the handshake and gives the notification that
    /// ends it. A server that counts columns otherwise is refused, rather than
    /// edits landing in the wrong place.
    pub fn initialized(&mut self, init: &Json) -> (r: Result<Vec<u8>, String>)
        ensures
            final(self)@ == introduced(old(self)@, init@),
            match r {
                Ok(frame) => encoding_refusal(init@) is None && frame@ == initialized_frame(),
                Err(e) => encoding_refusal(init@) == Some(e@),
            },
    {
        self.capabilities = copy_of(init.get("capabilities"));
        if let Some(enc) = text_in(self.capabilities.get("positionEncoding")) {
            if !same_text(enc, "utf-16") {
                let mut m = owned("server negotiated positionEncoding ");
                let shown = debug_text(enc);
                m.append(shown.as_str());
                m.append("; only utf-16 is supported");
                return Err(m);
            }
        }
        Ok(self.notify("initialized", Members::new().object()))
    }

    /// Hands a document's current text to the server; gives its URI and the frame.
    pub fn did_open(&self, path: &str, language_id: &str, content: &str) -> (r: (String, Vec<u8>))
        ensures
            r.0@ == uri_of(path@),
            r.1@ == message_bytes(
                notification_json(
                    "textDocument/didOpen"@,
                    open_params(uri_of(path@), language_id@, content@),
                ),
            ),
    {
        let uri = path_to_uri(path);
        let doc = Members::new().with("uri", text(uri.as_str())).with(
            "languageId",
            text(language_id),
        ).with("version", unsigned(1)).with("text", text(content)).object();
        let params = Members::new().with("textDocument", doc).object();
        let frame = self.notify("textDocument/didOpen", params);
        (uri, frame)
    }

    /// Asks for the diagnostics of a document.
    pub fn diagnostics(&mut self, uri: &str) -> (r: Call)
        requires
            old(self)@.next_id < i64::MAX,
        ensures
            final(self)@ == after_request(old(self)@),
            is_call(r, old(self)@, "textDocument/diagnostic"@, diagnostic_params(uri@)),
    {
        let params = Members::new().with("textDocument", document(uri)).object();
        self.request("textDocument/diagnostic", params)
    }

    /// The diagnostics of a document, given the answer to the question for them.
    pub fn diagnostics_result(&self, uri: &str, report: &Json) -> (r: Json)
        ensures
            r@ == diagnostics_for(self@, uri@, report@),
    {
        let items = report.get("items");
        if let Some(v) = items {
            if let Some(list) = v.as_array() {
                assert(views(list@).len() == list@.len());
                if list.len() > 0 {
                    return v.duplicate();
                }
            }
        }
        match self.pushed_diagnostics.find(uri) {
            Some(v) => v.duplicate(),
            None => copy_of(items),
        }
    }

    /// Asks whether the place can be renamed.
    pub fn prepare_rename(&mut self, uri: &str, line: usize, character: usize) -> (r: Call)
        requires
            old(self)@.next_id < i64::MAX,
        ensures
            final(self)@ == after_request(old(self)@),
            is_call(
                r,
                old(self)@,
                "textDocument/prepareRename"@,
                prepare_params(uri@, line as nat, character as nat),
            ),
    {
        let params = place(uri, line, character).object();
        self.request("textDocument/prepareRename", params)
    }

    /// Asks for the edit that renames the symbol at a place, once the server has
    /// said whether it would rename there.
    pub fn rename(
        &mut self,
        uri: &str,
        line: usize,
        character: usize,
        new_name: &str,
        prepared: &Result<Json, String>,
    ) -> (r: Result<Call, String>)
        requires
            renameable(reply_view(*prepared)) ==> old(self)@.next_id < i64::MAX,
        ensures
            match r {
                Ok(call) => renameable(reply_view(*prepared)) && final(self)@ == after_request(
                    old(self)@,
                ) && is_call(
                    call,
                    old(self)@,
                    "textDocument/rename"@,
                    rename_params(uri@, line as nat, character as nat, new_name@),
                ),
                Err(e) => !renameable(reply_view(*prepared)) && final(self)@ == old(self)@ && e@
                    == not_renameable_message(line as nat, character as nat),
            },
    {
        if !would_rename(prepared) {
            let mut m = owned("position (");
            let l = decimal_text(line as u64);
            m.append(l.as_str());
            m.append(",");
            let c = decimal_text(character as u64);
            m.append(c.as_str());
            m.append(") is not renameable (prepareRename returned null)");
            return Err(m);
        }
        let params = place(uri, line, character).with("newName", text(new_name)).object();
        Ok(self.request("textDocument/rename", params))
    }

    /// Whether the server says that it can find references.
    pub fn has_references(&self) -> (r: bool)
        ensures
            r == (at(self@.capabilities, "referencesProvider"@) != JsonView::Null),
    {
        match self.capabilities.get("referencesProvider") {
            Some(v) => !v.is_null(),
            None => false,
        }
    }

    /// Asks for every reference to the symbol at a place, its declaration among them.
    pub fn references(&mut self, uri: &str, line: usize, character: usize) -> (r: Result<
        Call,
        String,
    >)
        requires
            at(old(self)@.capabilities, "referencesProvider"@) != JsonView::Null ==> old(
                self,
            )@.next_id < i64::MAX,
        ensures
            match r {
                Ok(call) => at(old(self)@.capabilities, "referencesProvider"@) != JsonView::Null
                    && final(self)@ == after_request(old(self)@) && is_call(
                    call,
                    old(self)@,
                    "textDocument/references"@,
                    references_params(uri@, line as nat, character as nat),
                ),
                Err(e) => at(old(self)@.capabilities, "referencesProvider"@) == JsonView::Null
                    && final(self)@ == old(self)@ && e@
                    == "server does not advertise referencesProvider"@,
            },
    {
        if !self.has_references() {
            return Err(owned("server does not advertise referencesProvider"));
        }
        let params = place(uri, line, character).with("context", flag("includeDeclaration")).object();
        Ok(self.request("textDocument/references", params))
    }

    /// Asks the server to stop.
    pub fn shutdown(&mut self) -> (r: Call)
        requires
            old(self)@.next_id < i64::MAX,
        ensures
            final(self)@ == after_request(old(self)@),
            is_call(r, old(self)@, "shutdown"@, JsonView::Null),
    {
        self.request("shutdown", Json::Null)
    }
}

/// Whether the server would rename at a place.
pub fn would_rename(reply: &Result<Json, String>) -> (r: bool)
    ensures
        r == renameable(reply_view(*reply)),
{
    match reply {
        Ok(j) => !j.is_null(),
        Err(_) => false,
    }
}

/// The locations in an answer to a search for references.
pub fn locations(reply: Json) -> (r: Result<Vec<Json>, String>)
    ensures
        match (r, locations_in(reply@)) {
            (Ok(a), Ok(b)) => views(a@) == b,
            (Err(e), Err(f)) => e@ == f,
            _ => false,
        },
{
    match reply {
        Json::Array(items) => {
            proof {
                crate::json::lemma_array_view(items);
            }
            Ok(items)
        },
        Json::Null => {
            let none: Vec<Json> = Vec::new();
            assert(views(none@) =~= Seq::empty());
            Ok(none)
        },
        _ => {
            let mut m = owned("unexpected references result: ");
            let shown = show_json(&reply);
            m.append(shown.as_str());
            Err(m)
        },
    }
}

/// A request of the server's is answered and never taken for the answer to a
/// request of the client's, whatever id it carries.
pub proof fn lemma_requests_are_no_answers(c: ClientView, id: int, msg: JsonView)
    requires
        as_str(at(msg, "method"@)) is Some,
    ensures
        !(waited(c, id, IncomingView::Frame(msg)).1 is Done),
        get(msg, "id"@) is Some ==> waited(c, id, IncomingView::Frame(msg)).1 is Answer,
{
}

/// Pushed diagnostics are kept whenever they come: those of the document are
/// replaced, those of other documents stay, and nothing else changes.
pub proof fn lemma_pushed_diagnostics_kept(c: ClientView, id: int, msg: JsonView, uri: Seq<char>)
    requires
        as_str(at(msg, "method"@)) == Some("textDocument/publishDiagnostics"@),
        get(msg, "id"@) is None,
        as_str(at(at(msg, "params"@), "uri"@)) == Some(uri),
    ensures
        ({
            let (after, w) = waited(c, id, IncomingView::Frame(msg));
            &&& w is More
            &&& after == (ClientView {
                pushed: c.pushed.insert(uri, at(at(msg, "params"@), "diagnostics"@)),
                ..c
            })
        }),
{
}

/// Waiting changes nothing but the diagnostics that were pushed.
pub proof fn lemma_waiting_keeps_ids(c: ClientView, id: int, incoming: IncomingView)
    ensures
        ({
            let after = waited(c, id, incoming).0;
            &&& after.next_id == c.next_id
            &&& after.timeout == c.timeout
            &&& after.capabilities == c.capabilities
        }),
{
}

// ---------------------------------------------------------------------------
// Letting the server go
// ---------------------------------------------------------------------------

/// How to go on with a server that was told to go.
#[derive(Clone, Copy, PartialEq, Eq, Debug, Structural)]
pub enum Dismissal {
    /// Look whether it has ended.
    Look,
    /// It has gone.
    Gone,
    /// Wait that long.
    Wait { millis: u64 },
    /// It does not hear: kill it.
    Kill,
}

/// How to go on with a server that was told to go, after so many waits: what was
/// seen of it since the last wait, where somebody looked, is whether it has ended.
/// After the last wait nobody looks any more.
pub open spec fn dismissal_of(waits: nat, seen: Option<bool>) -> Dismissal {
    match seen {
        Some(true) => Dismissal::Gone,
        Some(false) => if waits < 40 {
            Dismissal::Wait { millis: 50 }
        } else {
            Dismissal::Kill
        },
        None => if waits < 40 {
            Dismissal::Look
        } else {
            Dismissal::Kill
        },
    }
}

/// Decides how to go on with a server that was told to go, after so many waits,
/// given whether it was seen to have ended since the last.
pub fn dismissal(waits: u32, seen: Option<bool>) -> (r: Dismissal)
    ensures
        r == dismissal_of(waits as nat, seen),
{
    match seen {
        Some(true) => Dismissal::Gone,
        Some(false) => if waits < 40 {
            Dismissal::Wait { millis: 50 }
        } else {
            Dismissal::Kill
        },
        None => if waits < 40 {
            Dismissal::Look
        } else {
            Dismissal::Kill
        },
    }
}

/// How long a server that was told to go is waited for, from so many waits on,
/// where it never ends.
pub open spec fn patience(waits: nat) -> nat
    decreases 40 - waits,
{
    match dismissal_of(waits, Some(false)) {
        Dismissal::Wait { millis } => if waits < 40 {
            millis as nat + patience(waits + 1)
        } else {
            0
        },
        _ => 0,
    }
}

/// Letting a server go takes bounded time: it is looked at before each wait, one
/// that never ends is killed after forty waits, two seconds in all, and one that
/// was seen to have ended is never killed.
pub proof fn lemma_dismissal_ends(waits: nat)
    ensures
        dismissal_of(waits, Some(true)) is Gone,
        waits < 40 ==> dismissal_of(waits, None) is Look,
        waits >= 40 ==> dismissal_of(waits, None) is Kill && dismissal_of(
            waits,
            Some(false),
        ) is Kill,
        waits <= 40 ==> patience(waits) == 50 * (40 - waits),
    decreases 40 - waits,
{
    if waits < 40 {
        lemma_dismissal_ends(waits + 1);
    }
}

/// A server that cannot be started is named to the caller: by its program where it is
/// missing, and by the whole command and the system's reason otherwise.
pub proof fn lemma_spawn_failures_say_why(
    reason: Seq<char>,
    server_cmd: Seq<char>,
    cmd: Seq<char>,
)
    ensures
        mentions(spawn_message(true, reason, server_cmd, cmd), str_debug(cmd)),
        mentions(spawn_message(false, reason, server_cmd, cmd), server_cmd),
        ends_with(spawn_message(false, reason, server_cmd, cmd), reason),
{
    let a = "language server "@;
    let b = " not found. Install ty (a standalone binary, no Python) with:\n  "@;
    let c = "curl -LsSf https://astral.sh/ty/install.sh | sh\n"@
        + "then make sure it's on PATH, or pass --server-cmd for a different server."@;
    assert(spawn_message(true, reason, server_cmd, cmd) =~= a + str_debug(cmd) + b + c);
    lemma_parts_of_message(a, str_debug(cmd), b, c);
    lemma_parts_of_message("spawning language server: "@, server_cmd, ": "@, reason);
}

/// A place that the server would not rename at is named to the caller.
pub proof fn lemma_refusals_name_the_place(line: nat, character: nat)
    ensures
        mentions(not_renameable_message(line, character), decimal(line)),
        mentions(not_renameable_message(line, character), decimal(character)),
{
    let end = ") is not renameable (prepareRename returned null)"@;
    let m = not_renameable_message(line, character);
    lemma_parts_of_message("position ("@, decimal(line), ","@, decimal(character) + end);
    assert(m =~= "position ("@ + decimal(line) + ","@ + (decimal(character) + end));
    lemma_parts_of_message(
        "position ("@ + decimal(line) + ","@,
        decimal(character),
        end,
        Seq::empty(),
    );
    assert(m =~= "position ("@ + decimal(line) + ","@ + decimal(character) + end + Seq::<
        char,
    >::empty());
}

} // verus!
