//! One run of the tool, from the start of the server to the result.
//!
//! A session does no input or output itself. It says what to do next, and is told
//! what came of it: start the server, send a frame, wait for one, look up a file,
//! read one, write one. Each answer of the outside world is an event, and each
//! event leads to the next action.

use vstd::prelude::*;
use vstd::utf8::decode_utf8;

use crate::apply::{applicable, edit_views, edited, TextEdit, TextEditView};
use crate::client::{
    after_request, diagnostic_params, diagnostics_for, encoding_refusal, fresh_client,
    initialize_params, initialized_frame, introduced, locations, locations_in,
    not_renameable_message, notification_json, open_params, prepare_params, reply_view,
    references_params, rename_params, renameable, request_json, spawn_error, spawn_message,
    waited, would_rename, Call, Client, ClientView, Incoming, IncomingView, Waited, WaitedView,
};
use crate::error::{plain_error, ToolError, ToolErrorView};
use crate::json::{at, views, Json, JsonView};
use crate::order::{lemma_listing, listing};
use crate::path::{join, joined, language_id, language_of, extension, resolve, resolved};
use crate::render::{
    diagnostics_json, has_source, location_path, location_uri, locations_decodable,
    references_json, rename_json, render_diagnostics, render_references, render_rename_result,
    source_views, was_read, DiagnosticsRequest, ReferencesRequest, RenameRequest,
    RenameRequestView, Source, SourceView,
};
use crate::resolve::{
    candidate_views, candidates_of, lexical_candidates, parse_target, resolution,
    resolve_symbol, target_of, Candidate, CandidateView, References, ReferencesView, Resolution,
    ResolutionView, Target, TargetView,
};
use crate::summary::{
    all_rows, change_views, edit_count, row_order, summarizable, summarize_workspace_edit,
    FileChange, FileChangeView,
};
use crate::text::{owned, words_of};
use crate::transport::message_bytes;
use crate::uri::{decodable, path_of, try_uri_to_path, uri_of};
use crate::workspace::{apply_workspace_edit, collect_text_edits, collected, file_views, FileEdits};

verus! {

// ---------------------------------------------------------------------------
// Commands, events and actions
// ---------------------------------------------------------------------------

/// What a caller wants.
#[derive(Debug)]
pub enum Command {
    /// The diagnostics of a file.
    Diagnostics(DiagnosticsRequest),
    /// A symbol renamed.
    Rename(RenameRequest),
    /// Every reference to a symbol.
    References(ReferencesRequest),
}

/// What a caller wants.
pub enum CommandView {
    Diagnostics { file: Seq<char>, raw: bool },
    Rename(RenameRequestView),
    References { file: Seq<char>, target: Seq<char>, raw: bool },
}

impl View for Command {
    type V = CommandView;

    open spec fn view(&self) -> CommandView {
        match *self {
            Command::Diagnostics(q) => CommandView::Diagnostics { file: q.file@, raw: q.raw },
            Command::Rename(q) => CommandView::Rename(q@),
            Command::References(q) => CommandView::References {
                file: q.file@,
                target: q.target@,
                raw: q.raw,
            },
        }
    }
}

/// The file that a command is about.
pub open spec fn command_file(c: CommandView) -> Seq<char> {
    match c {
        CommandView::Diagnostics { file, .. } => file,
        CommandView::Rename(q) => q.file,
        CommandView::References { file, .. } => file,
    }
}

/// What came of an action.
#[derive(Debug)]
pub enum Event {
    /// The server runs.
    Spawned,
    /// The server could not be started: whether it is missing, and the system's words.
    SpawnFailed { missing: bool, reason: String },
    /// The frame went out.
    Sent,
    /// The frame could not be sent.
    SendFailed(String),
    /// What came from the server, or that nothing did.
    Incoming(Incoming),
    /// The full path of what was looked up, or why there is none.
    Located(Result<String, String>),
    /// The text of a file, or why it could not be read.
    Content(Result<String, String>),
    /// Whether a file was written.
    Written(Result<(), String>),
}

/// What came of an action.
pub enum EventView {
    Spawned,
    SpawnFailed { missing: bool, reason: Seq<char> },
    Sent,
    SendFailed(Seq<char>),
    Incoming(IncomingView),
    Located(Result<Seq<char>, Seq<char>>),
    Content(Result<Seq<char>, Seq<char>>),
    Written(Result<(), Seq<char>>),
}

/// A text, or why there is none.
pub open spec fn text_result(r: Result<String, String>) -> Result<Seq<char>, Seq<char>> {
    match r {
        Ok(s) => Ok(s@),
        Err(e) => Err(e@),
    }
}

/// That something was done, or why not.
pub open spec fn done_result(r: Result<(), String>) -> Result<(), Seq<char>> {
    match r {
        Ok(u) => Ok(u),
        Err(e) => Err(e@),
    }
}

impl View for Event {
    type V = EventView;

    open spec fn view(&self) -> EventView {
        match *self {
            Event::Spawned => EventView::Spawned,
            Event::SpawnFailed { missing, reason } => EventView::SpawnFailed {
                missing,
                reason: reason@,
            },
            Event::Sent => EventView::Sent,
            Event::SendFailed(e) => EventView::SendFailed(e@),
            Event::Incoming(i) => EventView::Incoming(i@),
            Event::Located(r) => EventView::Located(text_result(r)),
            Event::Content(r) => EventView::Content(text_result(r)),
            Event::Written(r) => EventView::Written(done_result(r)),
        }
    }
}

/// What to do next.
#[derive(Debug)]
pub enum Action {
    /// Start the server: the program, then its arguments.
    Spawn(Vec<String>),
    /// Look up the full path of a file or directory.
    Locate(String),
    /// Send a frame to the server.
    Send(Vec<u8>),
    /// Wait for a message from the server.
    Receive,
    /// Read a file.
    Read(String),
    /// Write a file.
    Write { path: String, text: String },
    /// Print the result; the server was told to go.
    Finish(Json),
    /// Report a failure.
    Fail(ToolError),
    /// Stop at once: the server's data cannot be worked with, or an event does not
    /// belong here.
    Abort,
}

/// What to do next.
pub enum ActionView {
    Spawn(Seq<Seq<char>>),
    Locate(Seq<char>),
    Send(Seq<u8>),
    Receive,
    Read(Seq<char>),
    Write { path: Seq<char>, text: Seq<char> },
    Finish(JsonView),
    Fail(ToolErrorView),
    Abort,
}

impl View for Action {
    type V = ActionView;

    open spec fn view(&self) -> ActionView {
        match *self {
            Action::Spawn(list) => ActionView::Spawn(list@.map_values(|s: String| s@)),
            Action::Locate(p) => ActionView::Locate(p@),
            Action::Send(f) => ActionView::Send(f@),
            Action::Receive => ActionView::Receive,
            Action::Read(p) => ActionView::Read(p@),
            Action::Write { path, text } => ActionView::Write { path: path@, text: text@ },
            Action::Finish(j) => ActionView::Finish(j@),
            Action::Fail(e) => ActionView::Fail(e@),
            Action::Abort => ActionView::Abort,
        }
    }
}

// ---------------------------------------------------------------------------
// The state
// ---------------------------------------------------------------------------

/// How far a session is.
#[derive(Clone, Copy, PartialEq, Eq, Debug, Structural)]
pub enum Stage {
    /// The server is being started.
    Spawn,
    /// The workspace is being looked up.
    Root,
    /// The server is asked what it can do.
    Initialize,
    /// The handshake is being ended.
    Initialized,
    /// The file is being looked up.
    Resolve,
    /// The file is being read, for the server.
    Open,
    /// The file is being handed to the server.
    Opened,
    /// The server is asked for diagnostics.
    Diagnose,
    /// The file is being read, for the symbol.
    Scan,
    /// The server is asked whether it would rename at a candidate.
    Verify,
    /// The server is asked whether the candidates are one symbol.
    Disambiguate,
    /// The server is asked whether it would rename at the target.
    Prepare,
    /// The server is asked for the edit.
    Rename,
    /// A file to edit is being read, for the summary.
    ReadEdits,
    /// A file to edit is being read, for the edit.
    ReadAgain,
    /// A file is being written.
    Write,
    /// The server is asked for references.
    Find,
    /// A file with references is being read.
    ReadSources,
    /// The server is asked to stop.
    Shutdown,
    /// The server is told to go.
    Exit,
    /// There is nothing left to do.
    Ended,
}

/// How far an exchange with the server is.
#[derive(Clone, Copy, PartialEq, Eq, Debug, Structural)]
pub enum Phase {
    /// The frame is being sent.
    Sending,
    /// The answer is still to come.
    Waiting,
    /// A question of the server's is being answered.
    Replying,
}

/// One run of the tool.
#[derive(Debug)]
pub struct Session {
    workspace: String,
    server_cmd: String,
    program: String,
    command: Command,
    client: Client,
    stage: Stage,
    phase: Phase,
    id: i64,
    path: String,
    uri: String,
    content: String,
    symbol: String,
    candidates: Vec<Candidate>,
    checked: usize,
    verified: Vec<Candidate>,
    line: usize,
    character: usize,
    from_symbol: bool,
    edit: Json,
    files: Vec<FileEdits>,
    changes: Vec<FileChange>,
    written: usize,
    locations: Vec<Json>,
    seen: usize,
    sources: Vec<Source>,
    output: Json,
}

/// The state of a session.
pub struct SessionView {
    pub workspace: Seq<char>,
    pub server_cmd: Seq<char>,
    pub program: Seq<char>,
    pub command: CommandView,
    pub client: ClientView,
    pub stage: Stage,
    pub phase: Phase,
    /// The id of the request that is under way.
    pub id: int,
    /// The full path of the command's file.
    pub path: Seq<char>,
    pub uri: Seq<char>,
    /// The text that the server was handed.
    pub content: Seq<char>,
    pub symbol: Seq<char>,
    pub candidates: Seq<CandidateView>,
    /// How many candidates the server has been asked about.
    pub checked: nat,
    pub verified: Seq<CandidateView>,
    pub line: nat,
    pub character: nat,
    pub from_symbol: bool,
    pub edit: JsonView,
    pub files: Seq<(Seq<char>, Seq<TextEditView>)>,
    /// The files to edit that were read, with their edits.
    pub changes: Seq<FileChangeView>,
    /// How many files were written.
    pub written: nat,
    pub locations: Seq<JsonView>,
    /// How many locations have had their file read.
    pub seen: nat,
    pub sources: Seq<SourceView>,
    pub output: JsonView,
}

impl View for Session {
    type V = SessionView;

    closed spec fn view(&self) -> SessionView {
        SessionView {
            workspace: self.workspace@,
            server_cmd: self.server_cmd@,
            program: self.program@,
            command: self.command@,
            client: self.client@,
            stage: self.stage,
            phase: self.phase,
            id: self.id as int,
            path: self.path@,
            uri: self.uri@,
            content: self.content@,
            symbol: self.symbol@,
            candidates: candidate_views(self.candidates@),
            checked: self.checked as nat,
            verified: candidate_views(self.verified@),
            line: self.line as nat,
            character: self.character as nat,
            from_symbol: self.from_symbol,
            edit: self.edit@,
            files: file_views(self.files@),
            changes: change_views(self.changes@),
            written: self.written as nat,
            locations: views(self.locations@),
            seen: self.seen as nat,
            sources: source_views(self.sources@),
            output: self.output@,
        }
    }
}

/// A session's next state, and what to do.
pub struct Step {
    pub state: SessionView,
    pub action: ActionView,
}

// ---------------------------------------------------------------------------
// The steps
// ---------------------------------------------------------------------------

/// The end, with a failure.
pub open spec fn failed(s: SessionView, e: ToolErrorView) -> Step {
    Step { state: SessionView { stage: Stage::Ended, ..s }, action: ActionView::Fail(e) }
}

/// The end, with nothing to report.
pub open spec fn aborted(s: SessionView) -> Step {
    Step { state: SessionView { stage: Stage::Ended, ..s }, action: ActionView::Abort }
}

/// A request to the server.
pub open spec fn asked(
    s: SessionView,
    stage: Stage,
    method: Seq<char>,
    params: JsonView,
) -> Step {
    if s.client.next_id >= i64::MAX {
        aborted(s)
    } else {
        Step {
            state: SessionView {
                client: after_request(s.client),
                stage,
                phase: Phase::Sending,
                id: s.client.next_id + 1,
                ..s
            },
            action: ActionView::Send(
                message_bytes(request_json(s.client.next_id + 1, method, params)),
            ),
        }
    }
}

/// A notification to the server.
pub open spec fn told(s: SessionView, stage: Stage, frame: Seq<u8>) -> Step {
    Step {
        state: SessionView { stage, phase: Phase::Sending, ..s },
        action: ActionView::Send(frame),
    }
}

/// A file to be read.
pub open spec fn reading(s: SessionView, stage: Stage, path: Seq<char>) -> Step {
    Step { state: SessionView { stage, ..s }, action: ActionView::Read(path) }
}

/// The work is done: the server is asked to stop.
#[verifier::opaque]
pub open spec fn finishing(s: SessionView, output: JsonView) -> Step {
    asked(SessionView { output, ..s }, Stage::Shutdown, "shutdown"@, JsonView::Null)
}

/// A search for references.
#[verifier::opaque]
pub open spec fn finding(s: SessionView) -> Step {
    if at(s.client.capabilities, "referencesProvider"@) == JsonView::Null {
        failed(s, plain_error("server does not advertise referencesProvider"@))
    } else {
        asked(
            s,
            Stage::Find,
            "textDocument/references"@,
            references_params(s.uri, s.line, s.character),
        )
    }
}

/// The target is found.
#[verifier::opaque]
pub open spec fn targeted(s: SessionView, line: nat, character: nat, from_symbol: bool) -> Step {
    let t = SessionView { line, character, from_symbol, ..s };
    match s.command {
        CommandView::Rename(_) => asked(
            t,
            Stage::Prepare,
            "textDocument/prepareRename"@,
            prepare_params(s.uri, line, character),
        ),
        CommandView::References { .. } => finding(t),
        CommandView::Diagnostics { .. } => aborted(t),
    }
}

/// The symbol's candidates have been looked at.
#[verifier::opaque]
pub open spec fn concluded(s: SessionView, references: ReferencesView) -> Step {
    match resolution(
        s.uri,
        command_file(s.command),
        s.symbol,
        s.candidates,
        s.verified,
        references,
    ) {
        ResolutionView::Found { line, character } => targeted(s, line, character, true),
        ResolutionView::AskReferences { line, character } => if at(
            s.client.capabilities,
            "referencesProvider"@,
        ) == JsonView::Null {
            match resolution(
                s.uri,
                command_file(s.command),
                s.symbol,
                s.candidates,
                s.verified,
                ReferencesView::Unavailable,
            ) {
                ResolutionView::Failed(e) => failed(s, e),
                _ => aborted(s),
            }
        } else {
            asked(
                s,
                Stage::Disambiguate,
                "textDocument/references"@,
                references_params(s.uri, line, character),
            )
        },
        ResolutionView::Failed(e) => failed(s, e),
    }
}

/// The next candidate, where one is left.
#[verifier::opaque]
pub open spec fn verifying(s: SessionView) -> Step {
    if s.checked < s.candidates.len() {
        let c = s.candidates[s.checked as int];
        asked(
            s,
            Stage::Verify,
            "textDocument/prepareRename"@,
            prepare_params(s.uri, c.line, c.character),
        )
    } else {
        concluded(s, ReferencesView::Unasked)
    }
}

/// The server has the file's text: the command's own work begins.
#[verifier::opaque]
pub open spec fn working(s: SessionView) -> Step {
    let target = match s.command {
        CommandView::Diagnostics { .. } => None,
        CommandView::Rename(q) => Some(q.target),
        CommandView::References { target, .. } => Some(target),
    };
    match target {
        None => asked(s, Stage::Diagnose, "textDocument/diagnostic"@, diagnostic_params(s.uri)),
        Some(t) => match target_of(t) {
            TargetView::Position { line, character } => targeted(s, line, character, false),
            TargetView::Symbol(name) => reading(
                SessionView { symbol: name, ..s },
                Stage::Scan,
                s.path,
            ),
        },
    }
}

/// The next file to write, where one is left.
#[verifier::opaque]
pub open spec fn writing(s: SessionView) -> Step {
    if s.written < s.files.len() {
        let uri = s.files[s.written as int].0;
        if decodable(uri) {
            reading(s, Stage::ReadAgain, path_of(uri))
        } else {
            aborted(s)
        }
    } else {
        finishing(s, s.output)
    }
}

/// All files to edit have been read: the summary, and then the edits where they
/// are to be made.
#[verifier::opaque]
pub open spec fn summarizing(s: SessionView) -> Step {
    match s.command {
        CommandView::Rename(q) => if s.line < usize::MAX && summarizable(s.changes) && edit_count(
            s.changes,
        ) <= u64::MAX {
            let output = rename_json(
                s.workspace,
                q,
                s.line,
                s.from_symbol,
                s.changes.len(),
                edit_count(s.changes),
                crate::order::sorted_by(all_rows(s.changes), row_order()),
                s.edit,
            );
            if q.apply {
                writing(SessionView { output, written: 0, ..s })
            } else {
                finishing(s, output)
            }
        } else {
            aborted(s)
        },
        _ => aborted(s),
    }
}

/// The next file to edit, where one is left.
#[verifier::opaque]
pub open spec fn gathering(s: SessionView) -> Step {
    if s.changes.len() < s.files.len() {
        let uri = s.files[s.changes.len() as int].0;
        if decodable(uri) {
            reading(s, Stage::ReadEdits, path_of(uri))
        } else {
            aborted(s)
        }
    } else {
        summarizing(s)
    }
}

/// The next file with references that has not been read, where one is left.
pub open spec fn sourcing(s: SessionView) -> Step
    decreases s.locations.len() - s.seen,
{
    if s.seen < s.locations.len() {
        let uri = location_uri(s.locations[s.seen as int]);
        if !decodable(uri) {
            aborted(s)
        } else if has_source(s.sources, path_of(uri)) {
            sourcing(SessionView { seen: s.seen + 1, ..s })
        } else {
            reading(s, Stage::ReadSources, path_of(uri))
        }
    } else {
        match s.command {
            CommandView::References { file, target, raw } => if s.line < usize::MAX
                && locations_decodable(s.locations) {
                finishing(
                    s,
                    references_json(
                        s.workspace,
                        file,
                        target,
                        s.line,
                        s.from_symbol,
                        raw,
                        s.sources,
                        s.locations,
                    ),
                )
            } else {
                aborted(s)
            },
            _ => aborted(s),
        }
    }
}

/// The server has said what it can do.
#[verifier::opaque]
pub open spec fn greeted(s: SessionView, reply: Result<JsonView, Seq<char>>) -> Step {
    match reply {
        Err(e) => failed(s, plain_error(e)),
        Ok(init) => {
            let t = SessionView { client: introduced(s.client, init), ..s };
            match encoding_refusal(init) {
                Some(e) => failed(t, plain_error(e)),
                None => told(t, Stage::Initialized, initialized_frame()),
            }
        },
    }
}

/// The server has reported on the file.
#[verifier::opaque]
pub open spec fn diagnosed(s: SessionView, reply: Result<JsonView, Seq<char>>) -> Step {
    match reply {
        Err(e) => failed(s, plain_error(e)),
        Ok(report) => {
            let d = diagnostics_for(s.client, s.uri, report);
            match s.command {
                CommandView::Diagnostics { file, raw } => finishing(
                    s,
                    diagnostics_json(s.workspace, file, s.content, raw, d),
                ),
                _ => aborted(s),
            }
        },
    }
}

/// The server has said whether it would rename at a candidate.
#[verifier::opaque]
pub open spec fn checked_one(s: SessionView, reply: Result<JsonView, Seq<char>>) -> Step {
    if s.checked < s.candidates.len() {
        verifying(
            SessionView {
                verified: if renameable(reply) {
                    s.verified.push(s.candidates[s.checked as int])
                } else {
                    s.verified
                },
                checked: s.checked + 1,
                ..s
            },
        )
    } else {
        aborted(s)
    }
}

/// The server has listed the references of the first candidate, or cannot.
#[verifier::opaque]
pub open spec fn compared(s: SessionView, reply: Result<JsonView, Seq<char>>) -> Step {
    concluded(
        s,
        match reply {
            Err(_) => ReferencesView::Unavailable,
            Ok(j) => match locations_in(j) {
                Ok(l) => ReferencesView::Known(l),
                Err(_) => ReferencesView::Unavailable,
            },
        },
    )
}

/// The server has said whether it would rename at the target.
#[verifier::opaque]
pub open spec fn prepared(s: SessionView, reply: Result<JsonView, Seq<char>>) -> Step {
    match s.command {
        CommandView::Rename(q) => if renameable(reply) {
            asked(
                s,
                Stage::Rename,
                "textDocument/rename"@,
                rename_params(s.uri, s.line, s.character, q.new_name),
            )
        } else {
            failed(s, plain_error(not_renameable_message(s.line, s.character)))
        },
        _ => aborted(s),
    }
}

/// The server has sent the edit.
#[verifier::opaque]
pub open spec fn renamed(s: SessionView, reply: Result<JsonView, Seq<char>>) -> Step {
    match reply {
        Err(e) => failed(s, plain_error(e)),
        Ok(edit) => match collected(edit) {
            Err(e) => failed(s, plain_error(e)),
            Ok(m) => gathering(
                SessionView { edit, files: listing(m), changes: Seq::empty(), ..s },
            ),
        },
    }
}

/// The server has listed the references.
#[verifier::opaque]
pub open spec fn references_found(s: SessionView, reply: Result<JsonView, Seq<char>>) -> Step {
    match reply {
        Err(e) => failed(s, plain_error(e)),
        Ok(j) => match locations_in(j) {
            Err(e) => failed(s, plain_error(e)),
            Ok(l) => sourcing(
                SessionView { locations: l, seen: 0, sources: Seq::empty(), ..s },
            ),
        },
    }
}

/// The server has answered a request, or will not.
#[verifier::opaque]
pub open spec fn replied(s: SessionView, reply: Result<JsonView, Seq<char>>) -> Step {
    match s.stage {
        Stage::Initialize => greeted(s, reply),
        Stage::Diagnose => diagnosed(s, reply),
        Stage::Verify => checked_one(s, reply),
        Stage::Disambiguate => compared(s, reply),
        Stage::Prepare => prepared(s, reply),
        Stage::Rename => renamed(s, reply),
        Stage::Find => references_found(s, reply),
        Stage::Shutdown => told(
            s,
            Stage::Exit,
            message_bytes(notification_json("exit"@, JsonView::Null)),
        ),
        _ => aborted(s),
    }
}

/// Whether a stage is a request that the server answers.
pub open spec fn is_request(stage: Stage) -> bool {
    match stage {
        Stage::Initialize
        | Stage::Diagnose
        | Stage::Verify
        | Stage::Disambiguate
        | Stage::Prepare
        | Stage::Rename
        | Stage::Find
        | Stage::Shutdown => true,
        _ => false,
    }
}

/// An event in an exchange with the server.
#[verifier::opaque]
pub open spec fn exchanged(s: SessionView, e: EventView) -> Step {
    match (s.phase, e) {
        (Phase::Sending, EventView::Sent) => Step {
            state: SessionView { phase: Phase::Waiting, ..s },
            action: ActionView::Receive,
        },
        (Phase::Sending, EventView::SendFailed(why)) => if s.stage == Stage::Disambiguate {
            concluded(s, ReferencesView::Unavailable)
        } else {
            failed(s, plain_error(why))
        },
        (Phase::Waiting, EventView::Incoming(i)) => {
            let (c, w) = waited(s.client, s.id, i);
            let t = SessionView { client: c, ..s };
            match w {
                WaitedView::More => Step { state: t, action: ActionView::Receive },
                WaitedView::Answer(frame) => Step {
                    state: SessionView { phase: Phase::Replying, ..t },
                    action: ActionView::Send(frame),
                },
                WaitedView::Done(reply) => replied(t, reply),
            }
        },
        (Phase::Replying, EventView::Sent) => Step {
            state: SessionView { phase: Phase::Waiting, ..s },
            action: ActionView::Receive,
        },
        (Phase::Replying, EventView::SendFailed(why)) => replied(s, Err(why)),
        _ => aborted(s),
    }
}

/// The failure to read a file.
pub open spec fn read_failure(path: Seq<char>, why: Seq<char>) -> ToolErrorView {
    plain_error("reading "@ + path + ": "@ + why)
}

/// The failure to write a file.
pub open spec fn write_failure(path: Seq<char>, why: Seq<char>) -> ToolErrorView {
    plain_error("writing "@ + path + ": "@ + why)
}

/// A file to edit has been read, for the summary.
#[verifier::opaque]
pub open spec fn took_edited(s: SessionView, found: Result<Seq<char>, Seq<char>>) -> Step {
    if s.changes.len() < s.files.len()
        && decodable(s.files[s.changes.len() as int].0) {
        let (uri, edits) = s.files[s.changes.len() as int];
        match found {
            Err(why) => failed(s, read_failure(path_of(uri), why)),
            Ok(text) => gathering(
                SessionView {
                    changes: s.changes.push(
                        FileChangeView { path: path_of(uri), text, edits },
                    ),
                    ..s
                },
            ),
        }
    } else {
        aborted(s)
    }
}

/// A file to edit has been read, for the edit: it is written with its edits applied.
#[verifier::opaque]
pub open spec fn took_again(s: SessionView, found: Result<Seq<char>, Seq<char>>) -> Step {
    if s.written < s.files.len() && decodable(
        s.files[s.written as int].0,
    ) {
        let (uri, edits) = s.files[s.written as int];
        match found {
            Err(why) => failed(s, read_failure(path_of(uri), why)),
            Ok(text) => if applicable(text, edits) {
                Step {
                    state: SessionView { stage: Stage::Write, ..s },
                    action: ActionView::Write {
                        path: path_of(uri),
                        text: decode_utf8(edited(text, edits)),
                    },
                }
            } else {
                aborted(s)
            },
        }
    } else {
        aborted(s)
    }
}

/// A file has been written.
#[verifier::opaque]
pub open spec fn took_written(s: SessionView, done: Result<(), Seq<char>>) -> Step {
    if s.written < s.files.len() && decodable(
        s.files[s.written as int].0,
    ) {
        match done {
            Err(why) => failed(
                s,
                write_failure(path_of(s.files[s.written as int].0), why),
            ),
            Ok(_) => writing(SessionView { written: s.written + 1, ..s }),
        }
    } else {
        aborted(s)
    }
}

/// A file with references has been read; one that cannot be read has no lines.
#[verifier::opaque]
pub open spec fn took_source(s: SessionView, found: Result<Seq<char>, Seq<char>>) -> Step {
    if s.seen < s.locations.len()
        && decodable(location_uri(s.locations[s.seen as int])) {
        sourcing(
            SessionView {
                sources: s.sources.push(
                    SourceView {
                        path: path_of(location_uri(s.locations[s.seen as int])),
                        text: match found {
                            Ok(t) => Some(t),
                            Err(_) => None,
                        },
                    },
                ),
                seen: s.seen + 1,
                ..s
            },
        )
    } else {
        aborted(s)
    }
}

/// What a session makes of an event.
pub open spec fn step_of(s: SessionView, e: EventView) -> Step {
    if is_request(s.stage) {
        exchanged(s, e)
    } else {
        match (s.stage, e) {
            (Stage::Spawn, EventView::Spawned) => Step {
                state: SessionView { stage: Stage::Root, ..s },
                action: ActionView::Locate(s.workspace),
            },
            (Stage::Spawn, EventView::SpawnFailed { missing, reason }) => failed(
                s,
                plain_error(spawn_message(missing, reason, s.server_cmd, s.program)),
            ),
            (Stage::Root, EventView::Located(Ok(root))) => asked(
                s,
                Stage::Initialize,
                "initialize"@,
                initialize_params(root),
            ),
            (Stage::Root, EventView::Located(Err(why))) => failed(s, plain_error(why)),
            (Stage::Initialized, EventView::Sent) => Step {
                state: SessionView { stage: Stage::Resolve, ..s },
                action: ActionView::Locate(joined(s.workspace, command_file(s.command))),
            },
            (Stage::Initialized, EventView::SendFailed(why)) => failed(s, plain_error(why)),
            (Stage::Resolve, EventView::Located(found)) => match resolved(
                s.workspace,
                command_file(s.command),
                found,
            ) {
                Ok(path) => reading(SessionView { path, ..s }, Stage::Open, path),
                Err(why) => failed(s, plain_error(why)),
            },
            (Stage::Open, EventView::Content(Err(why))) => failed(s, read_failure(s.path, why)),
            (Stage::Open, EventView::Content(Ok(content))) => told(
                SessionView { uri: uri_of(s.path), content, ..s },
                Stage::Opened,
                message_bytes(
                    notification_json(
                        "textDocument/didOpen"@,
                        open_params(uri_of(s.path), language_of(extension(s.path)), content),
                    ),
                ),
            ),
            (Stage::Opened, EventView::Sent) => working(s),
            (Stage::Opened, EventView::SendFailed(why)) => failed(s, plain_error(why)),
            (Stage::Scan, EventView::Content(Err(why))) => failed(s, plain_error(why)),
            (Stage::Scan, EventView::Content(Ok(content))) => verifying(
                SessionView {
                    candidates: candidates_of(content, s.symbol),
                    verified: Seq::empty(),
                    checked: 0,
                    ..s
                },
            ),
            (Stage::ReadEdits, EventView::Content(found)) => took_edited(s, found),
            (Stage::ReadAgain, EventView::Content(found)) => took_again(s, found),
            (Stage::Write, EventView::Written(done)) => took_written(s, done),
            (Stage::ReadSources, EventView::Content(found)) => took_source(s, found),
            (Stage::Exit, EventView::Sent) => Step {
                state: SessionView { stage: Stage::Ended, ..s },
                action: ActionView::Finish(s.output),
            },
            (Stage::Exit, EventView::SendFailed(_)) => Step {
                state: SessionView { stage: Stage::Ended, ..s },
                action: ActionView::Finish(s.output),
            },
            _ => aborted(s),
        }
    }
}

// ---------------------------------------------------------------------------
// Running it
// ---------------------------------------------------------------------------

/// The state in which a session begins.
pub open spec fn first_state(
    workspace: Seq<char>,
    server_cmd: Seq<char>,
    timeout: nat,
    command: CommandView,
) -> SessionView {
    SessionView {
        workspace,
        server_cmd,
        program: words_of(server_cmd)[0],
        command,
        client: fresh_client(timeout),
        stage: Stage::Spawn,
        phase: Phase::Sending,
        id: 0,
        path: Seq::empty(),
        uri: Seq::empty(),
        content: Seq::empty(),
        symbol: Seq::empty(),
        candidates: Seq::empty(),
        checked: 0,
        verified: Seq::empty(),
        line: 0,
        character: 0,
        from_symbol: false,
        edit: JsonView::Null,
        files: Seq::empty(),
        changes: Seq::empty(),
        written: 0,
        locations: Seq::empty(),
        seen: 0,
        sources: Seq::empty(),
        output: JsonView::Null,
    }
}

fn copy_file(c: &Command) -> (r: String)
    ensures
        r@ == command_file(c@),
{
    match c {
        Command::Diagnostics(q) => owned(q.file.as_str()),
        Command::Rename(q) => owned(q.file.as_str()),
        Command::References(q) => owned(q.file.as_str()),
    }
}

fn trouble(what: &str, path: &str, why: &str) -> (r: ToolError)
    ensures
        r@ == plain_error(what@ + path@ + ": "@ + why@),
{
    let mut m = owned(what);
    m.append(path);
    m.append(": ");
    m.append(why);
    ToolError::new(m)
}

/// A copy of a list of edits.
fn copy_edits(edits: &Vec<TextEdit>) -> (r: Vec<TextEdit>)
    ensures
        edit_views(r@) == edit_views(edits@),
{
    let mut out: Vec<TextEdit> = Vec::new();
    let mut i: usize = 0;
    while i < edits.len()
        invariant
            i <= edits@.len(),
            edit_views(out@) == edit_views(edits@).take(i as int),
        decreases edits@.len() - i,
    {
        let e = TextEdit { range: edits[i].range, new_text: owned(edits[i].new_text.as_str()) };
        let ghost before = out@;
        let ghost v = e@;
        out.push(e);
        i += 1;
        assert(edit_views(out@) =~= edit_views(before).push(v));
        assert(edit_views(out@) =~= edit_views(edits@).take(i as int));
    }
    assert(edit_views(out@) =~= edit_views(edits@));
    out
}

fn stage_is_request(stage: Stage) -> (r: bool)
    ensures
        r == is_request(stage),
{
    match stage {
        Stage::Initialize
        | Stage::Diagnose
        | Stage::Verify
        | Stage::Disambiguate
        | Stage::Prepare
        | Stage::Rename
        | Stage::Find
        | Stage::Shutdown => true,
        _ => false,
    }
}

impl Session {
    /// Begins a run: the session, and the start of the server as its first action.
    pub fn start(workspace: String, server_cmd: String, timeout: u64, command: Command) -> (r: Result<
        (Session, Action),
        ToolError,
    >)
        ensures
            match r {
                Ok((session, action)) => words_of(server_cmd@).len() > 0 && session@
                    == first_state(workspace@, server_cmd@, timeout as nat, command@) && action@
                    == ActionView::Spawn(words_of(server_cmd@)),
                Err(e) => words_of(server_cmd@).len() == 0 && e@ == plain_error(
                    "empty --server-cmd"@,
                ),
            },
    {
        let (client, list) = match Client::start(server_cmd.as_str(), timeout) {
            Ok(started) => started,
            Err(e) => return Err(ToolError::new(e)),
        };
        let program = owned(list[0].as_str());
        let session = Session {
            workspace,
            server_cmd,
            program,
            command,
            client,
            stage: Stage::Spawn,
            phase: Phase::Sending,
            id: 0,
            path: String::new(),
            uri: String::new(),
            content: String::new(),
            symbol: String::new(),
            candidates: Vec::new(),
            checked: 0,
            verified: Vec::new(),
            line: 0,
            character: 0,
            from_symbol: false,
            edit: Json::Null,
            files: Vec::new(),
            changes: Vec::new(),
            written: 0,
            locations: Vec::new(),
            seen: 0,
            sources: Vec::new(),
            output: Json::Null,
        };
        proof {
            let v = session@;
            assert(list@.map_values(|s: String| s@)[0] == list@[0]@);
            assert(v.candidates =~= Seq::empty());
            assert(v.verified =~= Seq::empty());
            assert(v.files =~= Seq::empty());
            assert(v.changes =~= Seq::empty());
            assert(v.locations =~= Seq::empty());
            assert(v.sources =~= Seq::empty());
            assert(v.path =~= Seq::empty());
            assert(v.uri =~= Seq::empty());
            assert(v.content =~= Seq::empty());
            assert(v.symbol =~= Seq::empty());
        }
        Ok((session, Action::Spawn(list)))
    }

    fn fail(&mut self, e: ToolError) -> (r: Action)
        ensures
            (Step { state: final(self)@, action: r@ }) == failed(old(self)@, e@),
    {
        self.stage = Stage::Ended;
        Action::Fail(e)
    }

    fn abort(&mut self) -> (r: Action)
        ensures
            (Step { state: final(self)@, action: r@ }) == aborted(old(self)@),
    {
        self.stage = Stage::Ended;
        Action::Abort
    }

    fn tell(&mut self, stage: Stage, frame: Vec<u8>) -> (r: Action)
        ensures
            (Step { state: final(self)@, action: r@ }) == told(old(self)@, stage, frame@),
    {
        self.stage = stage;
        self.phase = Phase::Sending;
        Action::Send(frame)
    }

    fn read(&mut self, stage: Stage, path: String) -> (r: Action)
        ensures
            (Step { state: final(self)@, action: r@ }) == reading(old(self)@, stage, path@),
    {
        self.stage = stage;
        Action::Read(path)
    }

    fn finish(&mut self, output: Json) -> (r: Action)
        ensures
            (Step { state: final(self)@, action: r@ }) == finishing(old(self)@, output@),
    {
        proof {
            reveal(finishing);
        }
        self.output = output;
        if !self.client.can_request() {
            return self.abort();
        }
        let call = self.client.shutdown();
        self.dispatch(Stage::Shutdown, call)
    }

    /// A request that the client has made is to be sent.
    fn dispatch(&mut self, stage: Stage, call: Call) -> (r: Action)
        ensures
            (Step { state: final(self)@, action: r@ }) == (Step {
                state: SessionView {
                    stage,
                    phase: Phase::Sending,
                    id: call.id as int,
                    ..old(self)@
                },
                action: ActionView::Send(call.frame@),
            }),
    {
        self.stage = stage;
        self.phase = Phase::Sending;
        self.id = call.id;
        Action::Send(call.frame)
    }

    fn find(&mut self) -> (r: Action)
        ensures
            (Step { state: final(self)@, action: r@ }) == finding(old(self)@),
    {
        proof {
            reveal(finding);
        }
        if !self.client.has_references() {
            return self.fail(
                ToolError::new(owned("server does not advertise referencesProvider")),
            );
        }
        if !self.client.can_request() {
            return self.abort();
        }
        match self.client.references(self.uri.as_str(), self.line, self.character) {
            Ok(call) => self.dispatch(Stage::Find, call),
            Err(e) => self.fail(ToolError::new(e)),
        }
    }

    /// The target is found.
    fn aim(&mut self, line: usize, character: usize, from_symbol: bool) -> (r: Action)
        ensures
            (Step { state: final(self)@, action: r@ }) == targeted(
                old(self)@,
                line as nat,
                character as nat,
                from_symbol,
            ),
    {
        proof {
            reveal(targeted);
        }
        self.line = line;
        self.character = character;
        self.from_symbol = from_symbol;
        match &self.command {
            Command::Rename(_) => {
                if !self.client.can_request() {
                    return self.abort();
                }
                let call = self.client.prepare_rename(self.uri.as_str(), line, character);
                self.dispatch(Stage::Prepare, call)
            },
            Command::References(_) => self.find(),
            Command::Diagnostics(_) => self.abort(),
        }
    }

    /// The symbol's candidates have been looked at.
    fn conclude(&mut self, references: References) -> (r: Action)
        ensures
            (Step { state: final(self)@, action: r@ }) == concluded(old(self)@, references@),
    {
        proof {
            reveal(concluded);
        }
        let file = copy_file(&self.command);
        match resolve_symbol(
            self.uri.as_str(),
            file.as_str(),
            self.symbol.as_str(),
            &self.candidates,
            &self.verified,
            &references,
        ) {
            Resolution::Found { line, character } => self.aim(line, character, true),
            Resolution::AskReferences { line, character } => {
                if !self.client.has_references() {
                    return match resolve_symbol(
                        self.uri.as_str(),
                        file.as_str(),
                        self.symbol.as_str(),
                        &self.candidates,
                        &self.verified,
                        &References::Unavailable,
                    ) {
                        Resolution::Failed(e) => self.fail(e),
                        _ => self.abort(),
                    };
                }
                if !self.client.can_request() {
                    return self.abort();
                }
                match self.client.references(self.uri.as_str(), line, character) {
                    Ok(call) => self.dispatch(Stage::Disambiguate, call),
                    Err(e) => self.fail(ToolError::new(e)),
                }
            },
            Resolution::Failed(e) => self.fail(e),
        }
    }

    /// The next candidate, where one is left.
    fn verify(&mut self) -> (r: Action)
        ensures
            (Step { state: final(self)@, action: r@ }) == verifying(old(self)@),
    {
        proof {
            reveal(verifying);
        }
        if self.checked < self.candidates.len() {
            let line: usize = self.candidates[self.checked].line;
            let character: usize = self.candidates[self.checked].character;
            assert(self@.candidates[self.checked as int] == self.candidates@[self.checked as int]@);
            if !self.client.can_request() {
                return self.abort();
            }
            let call = self.client.prepare_rename(self.uri.as_str(), line, character);
            self.dispatch(Stage::Verify, call)
        } else {
            self.conclude(References::Unasked)
        }
    }

    /// The command's own work begins.
    fn work(&mut self) -> (r: Action)
        ensures
            (Step { state: final(self)@, action: r@ }) == working(old(self)@),
    {
        proof {
            reveal(working);
        }
        let target = match &self.command {
            Command::Diagnostics(_) => None,
            Command::Rename(q) => Some(parse_target(q.target.as_str())),
            Command::References(q) => Some(parse_target(q.target.as_str())),
        };
        match target {
            None => {
                if !self.client.can_request() {
                    return self.abort();
                }
                let call = self.client.diagnostics(self.uri.as_str());
                self.dispatch(Stage::Diagnose, call)
            },
            Some(Target::Position { line, character }) => self.aim(line, character, false),
            Some(Target::Symbol(name)) => {
                self.symbol = name;
                let path = owned(self.path.as_str());
                self.read(Stage::Scan, path)
            },
        }
    }

    /// The next file to write, where one is left.
    fn write(&mut self) -> (r: Action)
        ensures
            (Step { state: final(self)@, action: r@ }) == writing(old(self)@),
    {
        proof {
            reveal(writing);
        }
        if self.written < self.files.len() {
            assert(self@.files[self.written as int] == self.files@[self.written as int]@);
            match try_uri_to_path(self.files[self.written].uri.as_str()) {
                Some(path) => self.read(Stage::ReadAgain, path),
                None => self.abort(),
            }
        } else {
            let output = self.output.duplicate();
            self.finish(output)
        }
    }

    /// All files to edit have been read.
    fn summarize(&mut self) -> (r: Action)
        ensures
            (Step { state: final(self)@, action: r@ }) == summarizing(old(self)@),
    {
        proof {
            reveal(summarizing);
        }
        if self.line == usize::MAX {
            return self.abort();
        }
        match &self.command {
            Command::Rename(q) => {
                let summary = match summarize_workspace_edit(&self.changes) {
                    Some(s) => s,
                    None => return self.abort(),
                };
                assert(self@.changes.len() == self.changes@.len());
                let apply = q.apply;
                let output = render_rename_result(
                    self.workspace.as_str(),
                    q,
                    self.line,
                    self.from_symbol,
                    &summary,
                    &self.edit,
                );
                if apply {
                    self.output = output;
                    self.written = 0;
                    self.write()
                } else {
                    self.finish(output)
                }
            },
            _ => self.abort(),
        }
    }

    /// The next file to edit, where one is left.
    fn gather(&mut self) -> (r: Action)
        ensures
            (Step { state: final(self)@, action: r@ }) == gathering(old(self)@),
    {
        proof {
            reveal(gathering);
        }
        let k: usize = self.changes.len();
        assert(self@.changes.len() == k);
        assert(self@.files.len() == self.files@.len());
        if k < self.files.len() {
            assert(self@.files[k as int] == self.files@[k as int]@);
            match try_uri_to_path(self.files[k].uri.as_str()) {
                Some(path) => self.read(Stage::ReadEdits, path),
                None => self.abort(),
            }
        } else {
            self.summarize()
        }
    }

    /// The next file with references that has not been read, where one is left.
    fn source(&mut self) -> (r: Action)
        ensures
            (Step { state: final(self)@, action: r@ }) == sourcing(old(self)@),
    {
        let ghost begin = self@;
        while self.seen < self.locations.len()
            invariant
                begin == old(self)@,
                sourcing(self@) == sourcing(begin),
            decreases self.locations@.len() - self.seen,
        {
            assert(self@.locations[self.seen as int] == self.locations@[self.seen as int]@);
            let path = match location_path(&self.locations[self.seen]) {
                Some(p) => p,
                None => return self.abort(),
            };
            if !was_read(&self.sources, path.as_str()) {
                return self.read(Stage::ReadSources, path);
            }
            self.seen = self.seen + 1;
        }
        if self.line == usize::MAX {
            return self.abort();
        }
        match &self.command {
            Command::References(q) => {
                match render_references(
                    self.workspace.as_str(),
                    q,
                    self.line,
                    self.from_symbol,
                    &self.sources,
                    &self.locations,
                ) {
                    Some(output) => self.finish(output),
                    None => self.abort(),
                }
            },
            _ => self.abort(),
        }
    }

    /// The server has said what it can do.
    fn greet(&mut self, reply: Result<Json, String>) -> (r: Action)
        ensures
            (Step { state: final(self)@, action: r@ }) == greeted(old(self)@, reply_view(reply)),
    {
        proof {
            reveal(greeted);
        }
        match reply {
            Err(e) => self.fail(ToolError::new(e)),
            Ok(init) => match self.client.initialized(&init) {
                Ok(frame) => self.tell(Stage::Initialized, frame),
                Err(e) => self.fail(ToolError::new(e)),
            },
        }
    }

    /// The server has reported on the file.
    fn diagnose(&mut self, reply: Result<Json, String>) -> (r: Action)
        ensures
            (Step { state: final(self)@, action: r@ }) == diagnosed(old(self)@, reply_view(reply)),
    {
        proof {
            reveal(diagnosed);
        }
        let report = match reply {
            Ok(report) => report,
            Err(e) => return self.fail(ToolError::new(e)),
        };
        let d = self.client.diagnostics_result(self.uri.as_str(), &report);
        match &self.command {
            Command::Diagnostics(q) => {
                let output = render_diagnostics(
                    self.workspace.as_str(),
                    q,
                    self.content.as_str(),
                    &d,
                );
                self.finish(output)
            },
            _ => self.abort(),
        }
    }

    /// The server has said whether it would rename at a candidate.
    fn check_one(&mut self, reply: Result<Json, String>) -> (r: Action)
        ensures
            (Step { state: final(self)@, action: r@ }) == checked_one(
                old(self)@,
                reply_view(reply),
            ),
    {
        proof {
            reveal(checked_one);
        }
        if self.checked >= self.candidates.len() {
            return self.abort();
        }
        assert(self@.candidates[self.checked as int] == self.candidates@[self.checked as int]@);
        if would_rename(&reply) {
            let c = self.candidates[self.checked].clone();
            let ghost before = self.verified@;
            self.verified.push(c);
            assert(candidate_views(self.verified@) =~= candidate_views(before).push(c@));
        }
        self.checked = self.checked + 1;
        self.verify()
    }

    /// The server has listed the references of the first candidate, or cannot.
    fn compare(&mut self, reply: Result<Json, String>) -> (r: Action)
        ensures
            (Step { state: final(self)@, action: r@ }) == compared(old(self)@, reply_view(reply)),
    {
        proof {
            reveal(compared);
        }
        let known = match reply {
            Err(_) => References::Unavailable,
            Ok(j) => match locations(j) {
                Ok(l) => References::Known(l),
                Err(_) => References::Unavailable,
            },
        };
        self.conclude(known)
    }

    /// The server has said whether it would rename at the target.
    fn prepare(&mut self, reply: Result<Json, String>) -> (r: Action)
        ensures
            (Step { state: final(self)@, action: r@ }) == prepared(old(self)@, reply_view(reply)),
    {
        proof {
            reveal(prepared);
        }
        match &self.command {
            Command::Rename(q) => {
                if would_rename(&reply) && !self.client.can_request() {
                    return self.abort();
                }
                match self.client.rename(
                    self.uri.as_str(),
                    self.line,
                    self.character,
                    q.new_name.as_str(),
                    &reply,
                ) {
                    Ok(call) => self.dispatch(Stage::Rename, call),
                    Err(e) => self.fail(ToolError::new(e)),
                }
            },
            _ => self.abort(),
        }
    }

    /// The server has sent the edit.
    fn take_edit(&mut self, reply: Result<Json, String>) -> (r: Action)
        ensures
            (Step { state: final(self)@, action: r@ }) == renamed(old(self)@, reply_view(reply)),
    {
        proof {
            reveal(renamed);
        }
        let edit = match reply {
            Ok(edit) => edit,
            Err(e) => return self.fail(ToolError::new(e)),
        };
        let files = match collect_text_edits(&edit) {
            Ok(files) => files,
            Err(e) => return self.fail(ToolError::new(e)),
        };
        proof {
            match collected(edit@) {
                Ok(m) => {
                    lemma_listing(file_views(files@), m);
                },
                Err(_) => {},
            }
        }
        self.edit = edit;
        self.files = files;
        self.changes = Vec::new();
        assert(change_views(self.changes@) =~= Seq::empty());
        self.gather()
    }

    /// The server has listed the references.
    fn take_references(&mut self, reply: Result<Json, String>) -> (r: Action)
        ensures
            (Step { state: final(self)@, action: r@ }) == references_found(
                old(self)@,
                reply_view(reply),
            ),
    {
        proof {
            reveal(references_found);
        }
        let j = match reply {
            Ok(j) => j,
            Err(e) => return self.fail(ToolError::new(e)),
        };
        match locations(j) {
            Err(e) => self.fail(ToolError::new(e)),
            Ok(l) => {
                self.locations = l;
                self.seen = 0;
                self.sources = Vec::new();
                assert(source_views(self.sources@) =~= Seq::empty());
                self.source()
            },
        }
    }

    /// The server has answered a request, or will not.
    fn reply(&mut self, reply: Result<Json, String>) -> (r: Action)
        ensures
            (Step { state: final(self)@, action: r@ }) == replied(old(self)@, reply_view(reply)),
    {
        proof {
            reveal(replied);
        }
        match self.stage {
            Stage::Initialize => self.greet(reply),
            Stage::Diagnose => self.diagnose(reply),
            Stage::Verify => self.check_one(reply),
            Stage::Disambiguate => self.compare(reply),
            Stage::Prepare => self.prepare(reply),
            Stage::Rename => self.take_edit(reply),
            Stage::Find => self.take_references(reply),
            Stage::Shutdown => {
                let frame = self.client.notify("exit", Json::Null);
                self.tell(Stage::Exit, frame)
            },
            _ => self.abort(),
        }
    }

    /// An event in an exchange with the server.
    fn exchange(&mut self, event: Event) -> (r: Action)
        ensures
            (Step { state: final(self)@, action: r@ }) == exchanged(old(self)@, event@),
    {
        proof {
            reveal(exchanged);
        }
        match (self.phase, event) {
            (Phase::Sending, Event::Sent) => {
                self.phase = Phase::Waiting;
                Action::Receive
            },
            (Phase::Sending, Event::SendFailed(why)) => {
                if self.stage == Stage::Disambiguate {
                    self.conclude(References::Unavailable)
                } else {
                    self.fail(ToolError::new(why))
                }
            },
            (Phase::Waiting, Event::Incoming(i)) => match self.client.wait_for_id(self.id, i) {
                Waited::More => Action::Receive,
                Waited::Answer(frame) => {
                    self.phase = Phase::Replying;
                    Action::Send(frame)
                },
                Waited::Done(reply) => self.reply(reply),
            },
            (Phase::Replying, Event::Sent) => {
                self.phase = Phase::Waiting;
                Action::Receive
            },
            (Phase::Replying, Event::SendFailed(why)) => self.reply(Err(why)),
            _ => self.abort(),
        }
    }

    /// Takes what came of the last action, and says what to do next.
    pub fn step(&mut self, event: Event) -> (r: Action)
        ensures
            (Step { state: final(self)@, action: r@ }) == step_of(old(self)@, event@),
    {
        if stage_is_request(self.stage) {
            return self.exchange(event);
        }
        match (self.stage, event) {
            (Stage::Spawn, Event::Spawned) => {
                self.stage = Stage::Root;
                Action::Locate(owned(self.workspace.as_str()))
            },
            (Stage::Spawn, Event::SpawnFailed { missing, reason }) => {
                let e = spawn_error(
                    missing,
                    reason.as_str(),
                    self.server_cmd.as_str(),
                    self.program.as_str(),
                );
                self.fail(ToolError::new(e))
            },
            (Stage::Root, Event::Located(Ok(root))) => {
                if !self.client.can_request() {
                    return self.abort();
                }
                let call = self.client.initialize(root.as_str());
                self.dispatch(Stage::Initialize, call)
            },
            (Stage::Root, Event::Located(Err(why))) => self.fail(ToolError::new(why)),
            (Stage::Initialized, Event::Sent) => {
                self.stage = Stage::Resolve;
                let file = copy_file(&self.command);
                Action::Locate(join(self.workspace.as_str(), file.as_str()))
            },
            (Stage::Initialized, Event::SendFailed(why)) => self.fail(ToolError::new(why)),
            (Stage::Resolve, Event::Located(found)) => {
                let file = copy_file(&self.command);
                match resolve(self.workspace.as_str(), file.as_str(), found) {
                    Ok(path) => {
                        self.path = owned(path.as_str());
                        self.read(Stage::Open, path)
                    },
                    Err(why) => self.fail(ToolError::new(why)),
                }
            },
            (Stage::Open, Event::Content(Err(why))) => {
                let e = trouble("reading ", self.path.as_str(), why.as_str());
                self.fail(e)
            },
            (Stage::Open, Event::Content(Ok(content))) => {
                let language = language_id(self.path.as_str());
                let (uri, frame) = self.client.did_open(
                    self.path.as_str(),
                    language,
                    content.as_str(),
                );
                self.uri = uri;
                self.content = content;
                self.tell(Stage::Opened, frame)
            },
            (Stage::Opened, Event::Sent) => self.work(),
            (Stage::Opened, Event::SendFailed(why)) => self.fail(ToolError::new(why)),
            (Stage::Scan, Event::Content(Err(why))) => self.fail(ToolError::new(why)),
            (Stage::Scan, Event::Content(Ok(content))) => {
                self.candidates = lexical_candidates(content.as_str(), self.symbol.as_str());
                self.verified = Vec::new();
                self.checked = 0;
                assert(candidate_views(self.verified@) =~= Seq::empty());
                self.verify()
            },
            (Stage::ReadEdits, Event::Content(found)) => self.take_edited(found),
            (Stage::ReadAgain, Event::Content(found)) => self.take_again(found),
            (Stage::Write, Event::Written(done)) => self.take_written(done),
            (Stage::ReadSources, Event::Content(found)) => self.take_source(found),
            (Stage::Exit, Event::Sent) => {
                self.stage = Stage::Ended;
                Action::Finish(self.output.duplicate())
            },
            (Stage::Exit, Event::SendFailed(_)) => {
                self.stage = Stage::Ended;
                Action::Finish(self.output.duplicate())
            },
            _ => self.abort(),
        }
    }

    /// A file to edit has been read, for the summary.
    fn take_edited(&mut self, found: Result<String, String>) -> (r: Action)
        ensures
            (Step { state: final(self)@, action: r@ }) == took_edited(
                old(self)@,
                text_result(found),
            ),
    {
        proof {
            reveal(took_edited);
        }
        let k: usize = self.changes.len();
        assert(self@.changes.len() == k);
        assert(self@.files.len() == self.files@.len());
        if k >= self.files.len() {
            return self.abort();
        }
        assert(self@.files[k as int] == self.files@[k as int]@);
        let path = match try_uri_to_path(self.files[k].uri.as_str()) {
            Some(p) => p,
            None => return self.abort(),
        };
        match found {
            Err(why) => {
                let e = trouble("reading ", path.as_str(), why.as_str());
                self.fail(e)
            },
            Ok(text) => {
                let edits = copy_edits(&self.files[k].edits);
                let change = FileChange { path, text, edits };
                let ghost before = self.changes@;
                let ghost v = change@;
                self.changes.push(change);
                assert(change_views(self.changes@) =~= change_views(before).push(v));
                self.gather()
            },
        }
    }

    /// A file to edit has been read, for the edit.
    fn take_again(&mut self, found: Result<String, String>) -> (r: Action)
        ensures
            (Step { state: final(self)@, action: r@ }) == took_again(
                old(self)@,
                text_result(found),
            ),
    {
        proof {
            reveal(took_again);
        }
        let k: usize = self.written;
        assert(self@.files.len() == self.files@.len());
        if k >= self.files.len() {
            return self.abort();
        }
        assert(self@.files[k as int] == self.files@[k as int]@);
        let path = match try_uri_to_path(self.files[k].uri.as_str()) {
            Some(p) => p,
            None => return self.abort(),
        };
        match found {
            Err(why) => {
                let e = trouble("reading ", path.as_str(), why.as_str());
                self.fail(e)
            },
            Ok(content) => match apply_workspace_edit(&self.files[k], content.as_str()) {
                Some((path, new_text)) => {
                    proof {
                        vstd::utf8::encode_utf8_decode_utf8(new_text@);
                    }
                    self.stage = Stage::Write;
                    Action::Write { path, text: new_text }
                },
                None => self.abort(),
            },
        }
    }

    /// A file has been written.
    fn take_written(&mut self, done: Result<(), String>) -> (r: Action)
        ensures
            (Step { state: final(self)@, action: r@ }) == took_written(
                old(self)@,
                done_result(done),
            ),
    {
        proof {
            reveal(took_written);
        }
        let k: usize = self.written;
        assert(self@.files.len() == self.files@.len());
        if k >= self.files.len() {
            return self.abort();
        }
        assert(self@.files[k as int] == self.files@[k as int]@);
        let path = match try_uri_to_path(self.files[k].uri.as_str()) {
            Some(p) => p,
            None => return self.abort(),
        };
        match done {
            Err(why) => {
                let e = trouble("writing ", path.as_str(), why.as_str());
                self.fail(e)
            },
            Ok(_) => {
                self.written = k + 1;
                self.write()
            },
        }
    }

    /// A file with references has been read.
    fn take_source(&mut self, found: Result<String, String>) -> (r: Action)
        ensures
            (Step { state: final(self)@, action: r@ }) == took_source(
                old(self)@,
                text_result(found),
            ),
    {
        proof {
            reveal(took_source);
        }
        let k: usize = self.seen;
        assert(self@.locations.len() == self.locations@.len());
        if k >= self.locations.len() {
            return self.abort();
        }
        assert(self@.locations[k as int] == self.locations@[k as int]@);
        let path = match location_path(&self.locations[k]) {
            Some(p) => p,
            None => return self.abort(),
        };
        let text = match found {
            Ok(t) => Some(t),
            Err(_) => None,
        };
        let source = Source { path, text };
        let ghost before = self.sources@;
        let ghost v = source@;
        self.sources.push(source);
        assert(source_views(self.sources@) =~= source_views(before).push(v));
        self.seen = k + 1;
        self.source()
    }
}

} // verus!
