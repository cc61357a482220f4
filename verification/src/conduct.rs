//! What a session does with its inputs: what it asks the server and when, which files it
//! reads and writes, and what becomes of every answer.

use vstd::prelude::*;

use crate::apply::{applicable, edited, TextEditView};
use crate::client::{
    diagnostics_for, encoding_refusal, initialized_frame, lemma_spawn_failures_say_why,
    locations_in, renameable, waited, IncomingView, WaitedView,
};
use crate::json::{as_str, at, get, JsonView};
use crate::lifecycle::{after_candidates, after_reading, edits_files, lemma_lifecycle};
use crate::messages::{
    answers, greets, lemma_greets, lemma_notification, lemma_opens, lemma_own_answer,
    lemma_questions_about_a_place, lemma_request, names_document, names_place, notifies, opens,
    requests,
};
use crate::order::{listing, sorted_by};
use crate::path::{extension, joined, language_of};
use crate::render::{
    diagnostics_json, has_source, location_uri, locations_decodable, references_json, rename_json,
    SourceView,
};
use crate::resolve::{
    candidates_of, covered_by, covers, lemma_found_is_verified, one_symbol, resolution, target_of,
    CandidateView, ReferencesView, ResolutionView, TargetView,
};
use crate::session::{
    checked_one, command_file, compared, concluded, diagnosed, exchanged, finding,
    finishing, first_state, gathering, greeted, is_request, prepared, references_found, renamed,
    replied, sourcing, step_of, summarizing, targeted, took_again, took_edited, took_source,
    took_written, verifying, working, writing, ActionView, CommandView, EventView, Phase,
    SessionView, Stage, Step,
};
use crate::summary::{
    all_rows, edit_count, row_order, summarizable, takes_edits, FileChangeView,
};
use crate::text::{ends_with, lemma_parts_of_message, mentions, words_of};
use crate::transport::message_bytes;
use crate::uri::{decodable, path_of, uri_of};
use crate::workspace::collected;

verus! {

// ---------------------------------------------------------------------------
// What the server is asked
// ---------------------------------------------------------------------------

/// Whether a message is the question that belongs to a session's stage.
pub open spec fn question_fits(m: JsonView, s: SessionView) -> bool {
    match s.stage {
        Stage::Initialize => requests(m, s.id, "initialize"@),
        Stage::Diagnose => {
            &&& requests(m, s.id, "textDocument/diagnostic"@)
            &&& names_document(m, s.uri)
        },
        Stage::Verify => {
            &&& requests(m, s.id, "textDocument/prepareRename"@)
            &&& s.checked < s.candidates.len()
            &&& names_place(
                m,
                s.uri,
                s.candidates[s.checked as int].line,
                s.candidates[s.checked as int].character,
            )
        },
        Stage::Disambiguate => {
            &&& requests(m, s.id, "textDocument/references"@)
            &&& s.verified.len() > 1
            &&& names_place(m, s.uri, s.verified[0].line, s.verified[0].character)
            &&& at(at(at(m, "params"@), "context"@), "includeDeclaration"@) == JsonView::Bool(true)
        },
        Stage::Prepare => {
            &&& requests(m, s.id, "textDocument/prepareRename"@)
            &&& s.command is Rename
            &&& names_place(m, s.uri, s.line, s.character)
        },
        Stage::Rename => {
            &&& requests(m, s.id, "textDocument/rename"@)
            &&& names_place(m, s.uri, s.line, s.character)
            &&& match s.command {
                CommandView::Rename(q) => at(at(m, "params"@), "newName"@) == JsonView::Text(
                    q.new_name,
                ),
                _ => false,
            }
        },
        Stage::Find => {
            &&& requests(m, s.id, "textDocument/references"@)
            &&& s.command is References
            &&& names_place(m, s.uri, s.line, s.character)
            &&& at(at(at(m, "params"@), "context"@), "includeDeclaration"@) == JsonView::Bool(true)
        },
        Stage::Shutdown => {
            &&& requests(m, s.id, "shutdown"@)
            &&& at(m, "params"@) == JsonView::Null
        },
        _ => true,
    }
}

/// Whether a step that puts a question puts the one that belongs to its stage.
pub open spec fn asks_well(st: Step) -> bool {
    match st.action {
        ActionView::Send(frame) => is_request(st.state.stage) && st.state.phase == Phase::Sending
            ==> exists|m: JsonView| #[trigger]
            message_bytes(m) == frame && question_fits(m, st.state),
        _ => true,
    }
}

/// Whether a session has room for one more request.
pub open spec fn can_ask(s: SessionView) -> bool {
    s.client.next_id < i64::MAX
}

/// Whether ids are within their bounds.
pub open spec fn ids_fit(s: SessionView) -> bool {
    0 <= s.client.next_id
}

/// Whether ids are within their bounds, and a question stands under the last one.
pub open spec fn numbered(s: SessionView) -> bool {
    &&& ids_fit(s)
    &&& is_request(s.stage) ==> s.id == s.client.next_id && s.id <= i64::MAX
}

/// Whether a stage belongs to a command.
pub open spec fn stage_suits(s: SessionView) -> bool {
    match s.stage {
        Stage::Diagnose => s.command is Diagnostics,
        Stage::Prepare | Stage::Rename | Stage::ReadEdits | Stage::ReadAgain | Stage::Write
            => s.command is Rename,
        Stage::Find | Stage::ReadSources => s.command is References,
        _ => true,
    }
}

/// Whether nothing but the progress of the exchange, the target, the counters and the
/// result differ between two states.
pub open spec fn same_matter(a: SessionView, b: SessionView) -> bool {
    &&& a.workspace == b.workspace
    &&& a.server_cmd == b.server_cmd
    &&& a.program == b.program
    &&& a.command == b.command
    &&& a.client.timeout == b.client.timeout
    &&& a.client.pushed == b.client.pushed
    &&& a.client.capabilities == b.client.capabilities
    &&& a.path == b.path
    &&& a.uri == b.uri
    &&& a.content == b.content
    &&& a.symbol == b.symbol
    &&& a.candidates == b.candidates
    &&& a.checked == b.checked
    &&& a.verified == b.verified
    &&& a.edit == b.edit
    &&& a.files == b.files
    &&& a.changes == b.changes
    &&& a.locations == b.locations
    &&& a.sources == b.sources
}

/// Whether two states have the same target.
pub open spec fn same_target(a: SessionView, b: SessionView) -> bool {
    a.line == b.line && a.character == b.character && a.from_symbol == b.from_symbol
}

/// Whether two states have the same counters and the same result.
pub open spec fn same_progress(a: SessionView, b: SessionView) -> bool {
    a.written == b.written && a.seen == b.seen && a.output == b.output
}

proof fn lemma_finishing(s: SessionView, output: JsonView)
    requires
        ids_fit(s),
    ensures
        ({
            let st = finishing(s, output);
            &&& asks_well(st)
            &&& numbered(st.state)
            &&& stage_suits(st.state)
            &&& same_matter(s, st.state)
            &&& same_target(s, st.state)
            &&& st.state.written == s.written && st.state.seen == s.seen
            &&& st.state.output == output
            &&& !(st.action is Fail)
            &&& can_ask(s) ==> st.state.stage == Stage::Shutdown
            &&& !can_ask(s) ==> st.state.stage == Stage::Ended && st.action is Abort
        }),
{
    reveal(finishing);
    if can_ask(s) {
        lemma_request(s.client.next_id + 1, "shutdown"@, JsonView::Null);
    }
}

proof fn lemma_targeted(s: SessionView, line: nat, character: nat, from_symbol: bool)
    requires
        ids_fit(s),
    ensures
        ({
            let st = targeted(s, line, character, from_symbol);
            &&& asks_well(st)
            &&& numbered(st.state)
            &&& stage_suits(st.state)
            &&& same_matter(s, st.state)
            &&& same_progress(s, st.state)
            &&& st.state.line == line && st.state.character == character
            &&& st.state.from_symbol == from_symbol
            &&& st.state.stage == Stage::Prepare || st.state.stage == Stage::Find || st.state.stage
                == Stage::Ended
            &&& can_ask(s) && s.command is Rename ==> st.state.stage == Stage::Prepare
            &&& can_ask(s) && s.command is References && at(
                s.client.capabilities,
                "referencesProvider"@,
            ) != JsonView::Null ==> st.state.stage == Stage::Find
            &&& s.command is References && at(s.client.capabilities, "referencesProvider"@)
                == JsonView::Null ==> st.action is Fail
        }),
{
    reveal(targeted);
    reveal(finding);
    if can_ask(s) {
        let id = s.client.next_id + 1;
        lemma_questions_about_a_place(
            id,
            "textDocument/prepareRename"@,
            s.uri,
            line,
            character,
            s.symbol,
        );
        lemma_questions_about_a_place(
            id,
            "textDocument/references"@,
            s.uri,
            line,
            character,
            s.symbol,
        );
        lemma_request(
            id,
            "textDocument/prepareRename"@,
            crate::client::prepare_params(s.uri, line, character),
        );
        lemma_request(
            id,
            "textDocument/references"@,
            crate::client::references_params(s.uri, line, character),
        );
    }
}

/// Whether a session has settled on the first candidate that the server would rename,
/// as soon as it has a target at all.
pub open spec fn settled(st: Step) -> bool {
    st.state.stage == Stage::Prepare || st.state.stage == Stage::Find ==> {
        &&& st.state.from_symbol
        &&& st.state.verified.len() > 0
        &&& st.state.line == st.state.verified[0].line
        &&& st.state.character == st.state.verified[0].character
    }
}

proof fn lemma_concluded(s: SessionView, references: ReferencesView)
    requires
        ids_fit(s),
    ensures
        ({
            let st = concluded(s, references);
            &&& asks_well(st)
            &&& numbered(st.state)
            &&& stage_suits(st.state)
            &&& same_matter(s, st.state)
            &&& same_progress(s, st.state)
            &&& settled(st)
            &&& after_candidates(st.state.stage) || st.state.stage == Stage::Ended
            &&& s.candidates.len() == 0 || s.verified.len() == 0 ==> st.action is Fail
            &&& can_ask(s) && s.candidates.len() > 0 && s.verified.len() == 1
                && s.command is Rename ==> st.state.stage == Stage::Prepare
            &&& can_ask(s) && s.candidates.len() > 0 && s.verified.len() > 1
                && references is Unasked && at(s.client.capabilities, "referencesProvider"@)
                != JsonView::Null ==> st.state.stage == Stage::Disambiguate
            &&& s.candidates.len() > 0 && s.verified.len() > 1 && references is Unavailable
                ==> st.action is Fail
            &&& s.candidates.len() > 0 && s.verified.len() > 1 && references is Unasked && at(
                s.client.capabilities,
                "referencesProvider"@,
            ) == JsonView::Null ==> st.action is Fail
            &&& can_ask(s) && s.candidates.len() > 0 && s.verified.len() == 1
                && s.command is References && at(s.client.capabilities, "referencesProvider"@)
                != JsonView::Null ==> st.state.stage == Stage::Find
            &&& s.candidates.len() > 0 && s.verified.len() > 1 ==> match references {
                ReferencesView::Known(list) => if one_symbol(list, s.uri, s.verified) {
                    can_ask(s) && s.command is Rename ==> st.state.stage == Stage::Prepare
                } else {
                    st.state.stage == Stage::Ended && st.action is Fail
                },
                _ => true,
            }
        }),
{
    reveal(concluded);
    let file = command_file(s.command);
    lemma_found_is_verified(s.uri, file, s.symbol, s.candidates, s.verified, references);
    lemma_found_is_verified(
        s.uri,
        file,
        s.symbol,
        s.candidates,
        s.verified,
        ReferencesView::Unavailable,
    );
    match resolution(s.uri, file, s.symbol, s.candidates, s.verified, references) {
        ResolutionView::Found { line, character } => {
            lemma_targeted(s, line, character, true);
        },
        ResolutionView::AskReferences { line, character } => {
            if can_ask(s) {
                let id = s.client.next_id + 1;
                lemma_questions_about_a_place(
                    id,
                    "textDocument/references"@,
                    s.uri,
                    line,
                    character,
                    s.symbol,
                );
                lemma_request(
                    id,
                    "textDocument/references"@,
                    crate::client::references_params(s.uri, line, character),
                );
            }
        },
        ResolutionView::Failed(_) => {},
    }
}

proof fn lemma_verifying(s: SessionView)
    requires
        ids_fit(s),
    ensures
        ({
            let st = verifying(s);
            &&& asks_well(st)
            &&& numbered(st.state)
            &&& stage_suits(st.state)
            &&& same_matter(s, st.state)
            &&& same_progress(s, st.state)
            &&& settled(st)
            &&& st.state.stage == Stage::Verify && s.checked < s.candidates.len()
                || after_candidates(st.state.stage) || st.state.stage == Stage::Ended
            &&& can_ask(s) && s.checked < s.candidates.len() ==> st.state.stage == Stage::Verify
            &&& s.checked >= s.candidates.len() && (s.candidates.len() == 0 || s.verified.len()
                == 0) ==> st.action is Fail
            &&& can_ask(s) && s.checked >= s.candidates.len() > 0 && s.verified.len() == 1
                && s.command is Rename ==> st.state.stage == Stage::Prepare
            &&& can_ask(s) && s.checked >= s.candidates.len() > 0 && s.verified.len() == 1
                && s.command is References && at(s.client.capabilities, "referencesProvider"@)
                != JsonView::Null ==> st.state.stage == Stage::Find
            &&& s.checked >= s.candidates.len() > 0 && s.verified.len() > 1 ==> if at(
                s.client.capabilities,
                "referencesProvider"@,
            ) == JsonView::Null {
                st.action is Fail
            } else {
                can_ask(s) ==> st.state.stage == Stage::Disambiguate
            }
        }),
{
    reveal(verifying);
    lemma_concluded(s, ReferencesView::Unasked);
    if can_ask(s) && s.checked < s.candidates.len() {
        let c = s.candidates[s.checked as int];
        let id = s.client.next_id + 1;
        lemma_questions_about_a_place(
            id,
            "textDocument/prepareRename"@,
            s.uri,
            c.line,
            c.character,
            s.symbol,
        );
        lemma_request(
            id,
            "textDocument/prepareRename"@,
            crate::client::prepare_params(s.uri, c.line, c.character),
        );
    }
}

/// What a command is about: the text that names its target.
pub open spec fn command_target(c: CommandView) -> Option<Seq<char>> {
    match c {
        CommandView::Diagnostics { .. } => None,
        CommandView::Rename(q) => Some(q.target),
        CommandView::References { target, .. } => Some(target),
    }
}

/// Whether a session goes to the place that its command names, or looks for the name.
pub open spec fn sets_out(s: SessionView, st: Step) -> bool {
    match command_target(s.command) {
        None => can_ask(s) ==> st.state.stage == Stage::Diagnose,
        Some(t) => match target_of(t) {
            TargetView::Position { line, character } => {
                &&& st.state.line == line && st.state.character == character
                &&& !st.state.from_symbol
                &&& st.state.symbol == s.symbol
                &&& can_ask(s) && s.command is Rename ==> st.state.stage == Stage::Prepare
                &&& can_ask(s) && s.command is References && at(
                    s.client.capabilities,
                    "referencesProvider"@,
                ) != JsonView::Null ==> st.state.stage == Stage::Find
            },
            TargetView::Symbol(name) => {
                &&& st.state == (SessionView { symbol: name, stage: Stage::Scan, ..s })
                &&& st.action == ActionView::Read(s.path)
            },
        },
    }
}

proof fn lemma_working(s: SessionView)
    requires
        ids_fit(s),
    ensures
        asks_well(working(s)),
        numbered(working(s).state),
        stage_suits(working(s).state),
        crate::lifecycle::follows(Stage::Opened, working(s).state.stage),
        sets_out(s, working(s)),
        same_progress(s, working(s).state),
        same_matter(
            SessionView { symbol: working(s).state.symbol, ..s },
            working(s).state,
        ),
        command_target(s.command) is None ==> same_target(s, working(s).state),
{
    reveal(working);
    match command_target(s.command) {
        Some(t) => match target_of(t) {
            TargetView::Position { line, character } => {
                lemma_targeted(s, line, character, false);
            },
            _ => {},
        },
        None => {
            if can_ask(s) {
                let id = s.client.next_id + 1;
                lemma_questions_about_a_place(id, "textDocument/diagnostic"@, s.uri, 0, 0, s.uri);
                lemma_request(
                    id,
                    "textDocument/diagnostic"@,
                    crate::client::diagnostic_params(s.uri),
                );
            }
        },
    }
}

/// Whether a step into the reading of a file to write reads the next one, and a step to
/// the end comes when all are written.
pub open spec fn writes_on(st: Step) -> bool {
    &&& st.state.stage == Stage::ReadAgain ==> {
        &&& st.state.written < st.state.files.len()
        &&& st.action == ActionView::Read(path_of(st.state.files[st.state.written as int].0))
    }
    &&& st.state.stage == Stage::Shutdown && edits_files(st.state.command) ==> st.state.written
        == st.state.files.len()
}

proof fn lemma_writing(s: SessionView)
    requires
        ids_fit(s),
        s.command is Rename,
        s.written <= s.files.len(),
    ensures
        ({
            let st = writing(s);
            &&& asks_well(st)
            &&& numbered(st.state)
            &&& stage_suits(st.state)
            &&& same_matter(s, st.state)
            &&& same_target(s, st.state)
            &&& same_progress(s, st.state)
            &&& writes_on(st)
            &&& st.state.stage == Stage::Shutdown ==> s.written == s.files.len()
            &&& st.state.stage == Stage::Shutdown || st.state.stage == Stage::ReadAgain
                || st.state.stage == Stage::Ended
            &&& can_ask(s) && s.written == s.files.len() ==> st.state.stage == Stage::Shutdown
            &&& s.written < s.files.len() && decodable(s.files[s.written as int].0)
                ==> st.state.stage == Stage::ReadAgain
        }),
{
    reveal(writing);
    lemma_finishing(s, s.output);
}

/// The result of a rename: what the read files become with their edits.
pub open spec fn rename_output(s: SessionView) -> JsonView {
    match s.command {
        CommandView::Rename(q) => rename_json(
            s.workspace,
            q,
            s.line,
            s.from_symbol,
            s.files.len(),
            edit_count(s.changes),
            sorted_by(all_rows(s.changes), row_order()),
            s.edit,
        ),
        _ => JsonView::Null,
    }
}

/// Whether the edits of all files can be made, and all numbers be counted.
pub open spec fn can_summarize(s: SessionView) -> bool {
    &&& s.line < usize::MAX
    &&& forall|k: int|
        0 <= k < s.changes.len() ==> applicable(
            (#[trigger] s.changes[k]).text,
            s.changes[k].edits,
        )
    &&& edit_count(s.changes) <= u64::MAX
}

proof fn lemma_gathering(s: SessionView)
    requires
        ids_fit(s),
        s.command is Rename,
        s.changes.len() <= s.files.len(),
    ensures
        ({
            let st = gathering(s);
            &&& asks_well(st)
            &&& numbered(st.state)
            &&& stage_suits(st.state)
            &&& same_matter(s, st.state)
            &&& same_target(s, st.state)
            &&& st.state.seen == s.seen
            &&& writes_on(st)
            &&& st.state.stage == Stage::ReadEdits || after_reading(st.state.stage)
                || st.state.stage == Stage::Ended
            &&& st.state.stage == Stage::ReadEdits ==> s.changes.len() < s.files.len()
                && st.action == ActionView::Read(path_of(s.files[s.changes.len() as int].0))
                && st.state.written == s.written && st.state.output == s.output
            &&& s.changes.len() < s.files.len() && decodable(
                s.files[s.changes.len() as int].0,
            ) ==> st.state.stage == Stage::ReadEdits
            &&& st.state.stage == Stage::ReadAgain ==> edits_files(s.command)
            &&& after_reading(st.state.stage) && edits_files(s.command) ==> st.state.written == 0
            &&& s.changes.len() == s.files.len() && can_summarize(s) && can_ask(s) ==> if edits_files(
                s.command,
            ) && s.files.len() > 0 {
                decodable(s.files[0].0) ==> st.state.stage == Stage::ReadAgain
            } else {
                st.state.stage == Stage::Shutdown
            }
            &&& s.changes.len() == s.files.len() && !can_summarize(s) ==> st.action is Abort
            &&& st.state.stage == Stage::ReadAgain || st.state.stage == Stage::Shutdown
                ==> s.command is Rename && s.changes.len() == s.files.len() && st.state.output
                == rename_output(s)
        }),
{
    reveal(gathering);
    reveal(summarizing);
    let output = rename_output(s);
    assert(can_summarize(s) == (s.line < usize::MAX && summarizable(s.changes) && edit_count(
        s.changes,
    ) <= u64::MAX)) by {
        assert(forall|k: int|
            0 <= k < s.changes.len() ==> takes_edits(#[trigger] s.changes[k]) == applicable(
                s.changes[k].text,
                s.changes[k].edits,
            ));
    }
    lemma_writing(SessionView { output, written: 0, ..s });
    lemma_finishing(s, output);
}

/// Whether the files of the locations up to a number have been read.
pub open spec fn sourced(s: SessionView) -> bool {
    &&& s.seen <= s.locations.len()
    &&& forall|k: int|
        0 <= k < s.seen ==> has_source(s.sources, path_of(location_uri(#[trigger] s.locations[k])))
}

proof fn lemma_sourcing(s: SessionView)
    requires
        ids_fit(s),
        s.command is References,
        sourced(s),
    ensures
        ({
            let st = sourcing(s);
            &&& asks_well(st)
            &&& numbered(st.state)
            &&& stage_suits(st.state)
            &&& same_matter(s, st.state)
            &&& same_target(s, st.state)
            &&& st.state.written == s.written
            &&& sourced(st.state)
            &&& locations_decodable(s.locations) && s.line < usize::MAX && can_ask(s)
                ==> st.state.stage != Stage::Ended
            &&& !(st.action is Fail)
            &&& st.state.stage == Stage::ReadSources || st.state.stage == Stage::Shutdown
                || st.state.stage == Stage::Ended
            &&& st.state.stage == Stage::ReadSources ==> st.state.seen < s.locations.len() && {
                let path = path_of(location_uri(s.locations[st.state.seen as int]));
                st.action == ActionView::Read(path) && !has_source(s.sources, path)
            } && st.state.output == s.output
            &&& st.state.stage == Stage::Shutdown ==> st.state.seen == s.locations.len()
                && match s.command {
                CommandView::References { file, target, raw } => st.state.output
                    == references_json(
                    s.workspace,
                    file,
                    target,
                    s.line,
                    s.from_symbol,
                    raw,
                    s.sources,
                    s.locations,
                ),
                _ => false,
            }
        }),
    decreases s.locations.len() - s.seen,
{
    if s.seen < s.locations.len() {
        let uri = location_uri(s.locations[s.seen as int]);
        if decodable(uri) && has_source(s.sources, path_of(uri)) {
            lemma_sourcing(SessionView { seen: s.seen + 1, ..s });
        }
    } else {
        match s.command {
            CommandView::References { file, target, raw } => {
                lemma_finishing(
                    s,
                    references_json(
                        s.workspace,
                        file,
                        target,
                        s.line,
                        s.from_symbol,
                        raw,
                        s.sources,
                        s.locations,
                    ),
                );
            },
            _ => {},
        }
    }
}

// ---------------------------------------------------------------------------
// What every step keeps
// ---------------------------------------------------------------------------

/// Whether the files that were read for a rename are those of the edit, in order, each
/// with its own edits.
pub open spec fn changes_match(s: SessionView) -> bool {
    &&& s.changes.len() <= s.files.len()
    &&& forall|k: int|
        0 <= k < s.changes.len() ==> (#[trigger] s.changes[k]).path == path_of(s.files[k].0)
            && s.changes[k].edits == s.files[k].1
}

/// What holds of a session in each of its stages.
pub open spec fn sound(s: SessionView) -> bool {
    &&& numbered(s)
    &&& stage_suits(s)
    &&& match s.stage {
        Stage::Verify => s.checked < s.candidates.len(),
        Stage::ReadEdits => changes_match(s) && s.changes.len() < s.files.len(),
        Stage::ReadAgain | Stage::Write => {
            &&& changes_match(s) && s.changes.len() == s.files.len()
            &&& edits_files(s.command)
            &&& s.written < s.files.len()
        },
        Stage::ReadSources => sourced(s) && s.seen < s.locations.len(),
        Stage::Shutdown | Stage::Exit => match s.command {
            CommandView::Rename(q) => {
                &&& changes_match(s) && s.changes.len() == s.files.len()
                &&& q.apply ==> s.written == s.files.len()
            },
            CommandView::References { .. } => sourced(s) && s.seen == s.locations.len(),
            CommandView::Diagnostics { .. } => true,
        },
        _ => true,
    }
}

/// Whether a step changes only what its stage is there to change.
pub open spec fn keeps(s: SessionView, t: SessionView) -> bool {
    &&& t.workspace == s.workspace && t.server_cmd == s.server_cmd && t.program == s.program
    &&& t.command == s.command && t.client.timeout == s.client.timeout
    &&& s.stage != Stage::Initialize ==> t.client.capabilities == s.client.capabilities
    &&& s.stage != Stage::Resolve ==> t.path == s.path
    &&& s.stage != Stage::Open ==> t.uri == s.uri && t.content == s.content
    &&& s.stage != Stage::Opened ==> t.symbol == s.symbol
    &&& s.stage != Stage::Scan ==> t.candidates == s.candidates
    &&& s.stage != Stage::Scan && s.stage != Stage::Verify ==> t.verified == s.verified
        && t.checked == s.checked
    &&& s.stage != Stage::Opened && s.stage != Stage::Scan && s.stage != Stage::Verify && s.stage
        != Stage::Disambiguate ==> same_target(s, t)
    &&& s.stage != Stage::Rename ==> t.edit == s.edit && t.files == s.files
    &&& s.stage != Stage::Rename && s.stage != Stage::ReadEdits ==> t.changes == s.changes
    &&& s.stage != Stage::Rename && s.stage != Stage::ReadEdits && s.stage != Stage::Write
        ==> t.written == s.written
    &&& s.stage != Stage::Find ==> t.locations == s.locations
    &&& s.stage != Stage::Find && s.stage != Stage::ReadSources ==> t.sources == s.sources
        && t.seen == s.seen
    &&& t.output != s.output ==> s.stage == Stage::Diagnose || s.stage == Stage::Rename || s.stage
        == Stage::ReadEdits || s.stage == Stage::Find || s.stage == Stage::ReadSources
}

/// Whether a session that comes to its end, or to the writing of files, has the result
/// of its command.
pub open spec fn has_result(s: SessionView, t: SessionView) -> bool {
    t.stage != s.stage && (t.stage == Stage::Shutdown || t.stage == Stage::ReadAgain) ==> match s.command {
        CommandView::Rename(_) => s.stage == Stage::Write || t.output == rename_output(t),
        CommandView::References { file, target, raw } => t.output == references_json(
            t.workspace,
            file,
            target,
            t.line,
            t.from_symbol,
            raw,
            t.sources,
            t.locations,
        ),
        CommandView::Diagnostics { .. } => true,
    }
}

/// Whether a step does what a session's step does.
pub open spec fn proper(s: SessionView, st: Step) -> bool {
    &&& asks_well(st)
    &&& sound(st.state)
    &&& keeps(s, st.state)
    &&& has_result(s, st.state)
    &&& s.stage == Stage::Scan || s.stage == Stage::Verify || s.stage == Stage::Disambiguate
        ==> settled(st)
    &&& (s.stage == Stage::Rename || s.stage == Stage::ReadEdits) && after_reading(st.state.stage)
        && edits_files(s.command) ==> st.state.written == 0
    &&& s.stage == Stage::Write && st.state.stage != Stage::Ended ==> st.state.written == s.written
        + 1
    &&& st.state.stage == Stage::ReadEdits ==> st.action == ActionView::Read(
        path_of(st.state.files[st.state.changes.len() as int].0),
    )
    &&& st.state.stage == Stage::ReadAgain ==> st.action == ActionView::Read(
        path_of(st.state.files[st.state.written as int].0),
    )
    &&& st.state.stage == Stage::ReadSources ==> {
        let path = path_of(location_uri(st.state.locations[st.state.seen as int]));
        st.action == ActionView::Read(path) && !has_source(st.state.sources, path)
    }
}

proof fn lemma_replied(s: SessionView, reply: Result<JsonView, Seq<char>>)
    requires
        sound(s),
        is_request(s.stage),
    ensures
        proper(s, replied(s, reply)),
{
    reveal(replied);
    match s.stage {
        Stage::Initialize => {
            reveal(greeted);
        },
        Stage::Diagnose => {
            reveal(diagnosed);
            match (reply, s.command) {
                (Ok(report), CommandView::Diagnostics { file, raw }) => {
                    let d = diagnostics_for(s.client, s.uri, report);
                    lemma_finishing(s, diagnostics_json(s.workspace, file, s.content, raw, d));
                },
                _ => {},
            }
        },
        Stage::Verify => {
            reveal(checked_one);
            let t = SessionView {
                verified: if renameable(reply) {
                    s.verified.push(s.candidates[s.checked as int])
                } else {
                    s.verified
                },
                checked: s.checked + 1,
                ..s
            };
            lemma_verifying(t);
        },
        Stage::Disambiguate => {
            reveal(compared);
            let r = match reply {
                Err(_) => ReferencesView::Unavailable,
                Ok(j) => match locations_in(j) {
                    Ok(l) => ReferencesView::Known(l),
                    Err(_) => ReferencesView::Unavailable,
                },
            };
            lemma_concluded(s, r);
        },
        Stage::Prepare => {
            reveal(prepared);
            match s.command {
                CommandView::Rename(q) => {
                    if can_ask(s) {
                        let id = s.client.next_id + 1;
                        lemma_questions_about_a_place(
                            id,
                            "textDocument/rename"@,
                            s.uri,
                            s.line,
                            s.character,
                            q.new_name,
                        );
                        lemma_request(
                            id,
                            "textDocument/rename"@,
                            crate::client::rename_params(s.uri, s.line, s.character, q.new_name),
                        );
                    }
                },
                _ => {},
            }
        },
        Stage::Rename => {
            reveal(renamed);
            match reply {
                Ok(edit) => match collected(edit) {
                    Ok(m) => {
                        lemma_gathering(
                            SessionView { edit, files: listing(m), changes: Seq::empty(), ..s },
                        );
                    },
                    Err(_) => {},
                },
                Err(_) => {},
            }
        },
        Stage::Find => {
            reveal(references_found);
            match reply {
                Ok(j) => match locations_in(j) {
                    Ok(l) => {
                        lemma_sourcing(
                            SessionView { locations: l, seen: 0, sources: Seq::empty(), ..s },
                        );
                    },
                    Err(_) => {},
                },
                Err(_) => {},
            }
        },
        _ => {},
    }
}

proof fn lemma_exchanged(s: SessionView, e: EventView)
    requires
        sound(s),
        is_request(s.stage),
    ensures
        proper(s, exchanged(s, e)),
{
    reveal(exchanged);
    match (s.phase, e) {
        (Phase::Sending, EventView::SendFailed(_)) => {
            lemma_concluded(s, ReferencesView::Unavailable);
        },
        (Phase::Waiting, EventView::Incoming(i)) => {
            let (c, w) = waited(s.client, s.id, i);
            crate::client::lemma_waiting_keeps_ids(s.client, s.id, i);
            match w {
                WaitedView::Done(reply) => {
                    lemma_replied(SessionView { client: c, ..s }, reply);
                },
                _ => {},
            }
        },
        (Phase::Replying, EventView::SendFailed(why)) => {
            lemma_replied(s, Err(why));
        },
        _ => {},
    }
}

/// A session with what was read for the location that it has come to.
spec fn with_source(s: SessionView, found: Result<Seq<char>, Seq<char>>) -> SessionView {
    SessionView {
        sources: s.sources.push(
            SourceView {
                path: path_of(location_uri(s.locations[s.seen as int])),
                text: match found {
                    Ok(t) => Some(t),
                    Err(_) => None,
                },
            },
        ),
        seen: s.seen + 1,
        ..s
    }
}

proof fn lemma_one_more_source(s: SessionView, found: Result<Seq<char>, Seq<char>>)
    requires
        sourced(s),
        s.seen < s.locations.len(),
    ensures
        sourced(with_source(s, found)),
{
    let t = with_source(s, found);
    let path = path_of(location_uri(s.locations[s.seen as int]));
    assert(t.sources[s.sources.len() as int].path == path);
    assert forall|k: int| 0 <= k < t.seen implies has_source(
        t.sources,
        path_of(location_uri(#[trigger] t.locations[k])),
    ) by {
        if k < s.seen {
            let p = path_of(location_uri(s.locations[k]));
            assert(has_source(s.sources, p));
            let i = choose|i: int| 0 <= i < s.sources.len() && (#[trigger] s.sources[i]).path == p;
            assert(t.sources[i] == s.sources[i]);
        }
    }
}

/// Every step of a sound session is proper and leaves it sound. Questions go to the
/// server under the session's own id, with the method that belongs to the stage and
/// about the document, the place and the name that the session holds; files are read in
/// turn; and a step changes only what its stage is there to change.
pub proof fn lemma_steps_are_proper(s: SessionView, e: EventView)
    requires
        sound(s),
    ensures
        proper(s, step_of(s, e)),
{
    if is_request(s.stage) {
        lemma_exchanged(s, e);
    } else {
        match (s.stage, e) {
            (Stage::Root, EventView::Located(Ok(root))) => {
                if can_ask(s) {
                    lemma_greets(s.client.next_id + 1, root);
                }
            },
            (Stage::Opened, EventView::Sent) => {
                lemma_working(s);
            },
            (Stage::Scan, EventView::Content(Ok(content))) => {
                lemma_verifying(
                    SessionView {
                        candidates: candidates_of(content, s.symbol),
                        verified: Seq::empty(),
                        checked: 0,
                        ..s
                    },
                );
            },
            (Stage::ReadEdits, EventView::Content(found)) => {
                reveal(took_edited);
                let (uri, edits) = s.files[s.changes.len() as int];
                match found {
                    Ok(text) => {
                        lemma_gathering(
                            SessionView {
                                changes: s.changes.push(
                                    FileChangeView { path: path_of(uri), text, edits },
                                ),
                                ..s
                            },
                        );
                    },
                    Err(_) => {},
                }
            },
            (Stage::ReadAgain, EventView::Content(_)) => {
                reveal(took_again);
            },
            (Stage::Write, EventView::Written(_)) => {
                reveal(took_written);
                lemma_writing(SessionView { written: s.written + 1, ..s });
            },
            (Stage::ReadSources, EventView::Content(found)) => {
                reveal(took_source);
                let t = with_source(s, found);
                lemma_one_more_source(s, found);
                lemma_sourcing(t);
            },
            _ => {},
        }
    }
}

/// Every session begins sound.
pub proof fn lemma_begins_sound(
    workspace: Seq<char>,
    server_cmd: Seq<char>,
    timeout: nat,
    command: CommandView,
)
    ensures
        sound(first_state(workspace, server_cmd, timeout, command)),
{
}

// ---------------------------------------------------------------------------
// From the start to the open document
// ---------------------------------------------------------------------------

/// Whether a step sends one message, and which.
pub open spec fn sends(st: Step, m: JsonView) -> bool {
    st.action == ActionView::Send(message_bytes(m))
}

/// The server is greeted with the workspace as the file system knows it: the running
/// server leads to a look at the workspace, and the full path found goes into the
/// greeting.
pub proof fn lemma_workspace_is_the_root(s: SessionView, root: Seq<char>)
    requires
        sound(s),
    ensures
        s.stage == Stage::Spawn ==> step_of(s, EventView::Spawned).action == ActionView::Locate(
            s.workspace,
        ) && step_of(s, EventView::Spawned).state.stage == Stage::Root,
        s.stage == Stage::Root && can_ask(s) ==> ({
            let st = step_of(s, EventView::Located(Ok(root)));
            &&& st.state.stage == Stage::Initialize
            &&& st.state.phase == Phase::Sending
            &&& exists|m: JsonView| #[trigger] sends(st, m) && greets(m, st.state.id, root)
        }),
{
    if s.stage == Stage::Root && can_ask(s) {
        let id = s.client.next_id + 1;
        lemma_greets(id, root);
        let m = crate::client::request_json(
            id,
            "initialize"@,
            crate::client::initialize_params(root),
        );
        assert(sends(step_of(s, EventView::Located(Ok(root))), m));
    }
}

/// The command's file is looked for in the workspace, and the full path that is found is
/// the one that is read.
pub proof fn lemma_file_is_found_and_read(s: SessionView, path: Seq<char>, why: Seq<char>)
    ensures
        s.stage == Stage::Initialized ==> ({
            let st = step_of(s, EventView::Sent);
            &&& st.state.stage == Stage::Resolve
            &&& st.action == ActionView::Locate(joined(s.workspace, command_file(s.command)))
        }),
        s.stage == Stage::Resolve ==> ({
            let st = step_of(s, EventView::Located(Ok(path)));
            &&& st.state.stage == Stage::Open
            &&& st.state.path == path
            &&& st.action == ActionView::Read(path)
        }),
        s.stage == Stage::Resolve ==> step_of(s, EventView::Located(Err(why))).action is Fail,
{
}

/// The server is handed the text that was just read, as the document of the file's own
/// URI and language, and the session goes on with that text.
pub proof fn lemma_server_gets_what_was_read(s: SessionView, content: Seq<char>)
    requires
        s.stage == Stage::Open,
    ensures
        ({
            let st = step_of(s, EventView::Content(Ok(content)));
            &&& st.state.stage == Stage::Opened
            &&& st.state.content == content
            &&& st.state.uri == uri_of(s.path)
            &&& exists|m: JsonView| #[trigger]
                sends(st, m) && opens(
                    m,
                    uri_of(s.path),
                    language_of(extension(s.path)),
                    content,
                )
        }),
{
    let uri = uri_of(s.path);
    let language = language_of(extension(s.path));
    lemma_opens(uri, language, content);
    let m = crate::client::notification_json(
        "textDocument/didOpen"@,
        crate::client::open_params(uri, language, content),
    );
    assert(sends(step_of(s, EventView::Content(Ok(content))), m));
}

/// With the document open the session turns to its command: diagnostics are asked for,
/// a place that was given is gone to as it was given, and a name is looked for in the
/// command's file.
pub proof fn lemma_command_is_taken_up(s: SessionView)
    requires
        sound(s),
        s.stage == Stage::Opened,
    ensures
        sets_out(s, step_of(s, EventView::Sent)),
{
    lemma_working(s);
}

// ---------------------------------------------------------------------------
// From a name to a place
// ---------------------------------------------------------------------------

/// The candidates for a name are its occurrences in the text that was read; the server
/// is asked about the first of them first, and none is verified yet. A name that does
/// not occur fails.
pub proof fn lemma_candidates_are_scanned(s: SessionView, content: Seq<char>)
    requires
        sound(s),
        s.stage == Stage::Scan,
    ensures
        ({
            let st = step_of(s, EventView::Content(Ok(content)));
            &&& st.state.candidates == candidates_of(content, s.symbol)
            &&& st.state.verified.len() == 0
            &&& st.state.checked == 0
            &&& candidates_of(content, s.symbol).len() > 0 && can_ask(s) ==> st.state.stage
                == Stage::Verify
            &&& candidates_of(content, s.symbol).len() == 0 ==> st.action is Fail
        }),
{
    lemma_verifying(
        SessionView {
            candidates: candidates_of(content, s.symbol),
            verified: Seq::empty(),
            checked: 0,
            ..s
        },
    );
}

/// Whether a session waits for an answer, and a message is that answer.
pub open spec fn is_answered(s: SessionView, msg: JsonView) -> bool {
    &&& is_request(s.stage)
    &&& s.phase == Phase::Waiting
    &&& answers(msg, s.id)
}

/// The step that a message leads to.
pub open spec fn after(s: SessionView, msg: JsonView) -> Step {
    step_of(s, EventView::Incoming(IncomingView::Frame(msg)))
}

proof fn lemma_answered(s: SessionView, msg: JsonView)
    requires
        sound(s),
        is_answered(s, msg),
    ensures
        get(msg, "error"@) is None ==> after(s, msg) == replied(s, Ok(at(msg, "result"@))),
        get(msg, "error"@) is Some ==> exists|why: Seq<char>|
            after(s, msg) == #[trigger] replied(s, Err(why)),
{
    reveal(exchanged);
    lemma_own_answer(s.client, s.id, s.id, msg);
}

/// A candidate is verified exactly where the server answers something for it: neither
/// null nor an error will do. Whatever the answer, the next candidate is the next to be
/// asked about. Behind the last of them one verified candidate is the target; several are
/// compared, and fail where the server cannot compare them.
pub proof fn lemma_candidates_are_verified(s: SessionView, msg: JsonView)
    requires
        sound(s),
        s.stage == Stage::Verify,
        is_answered(s, msg),
    ensures
        ({
            let t = after(s, msg).state;
            &&& t.checked == s.checked + 1
            &&& get(msg, "error"@) is None && at(msg, "result"@) != JsonView::Null ==> t.verified
                == s.verified.push(s.candidates[s.checked as int])
            &&& get(msg, "error"@) is Some || at(msg, "result"@) == JsonView::Null ==> t.verified
                == s.verified
            &&& can_ask(s) && s.checked + 1 < s.candidates.len() ==> t.stage == Stage::Verify
            &&& can_ask(s) && s.checked + 1 == s.candidates.len() && t.verified.len() == 1
                && s.command is Rename ==> t.stage == Stage::Prepare
            &&& can_ask(s) && s.checked + 1 == s.candidates.len() && t.verified.len() == 1
                && s.command is References && at(s.client.capabilities, "referencesProvider"@)
                != JsonView::Null ==> t.stage == Stage::Find
            &&& s.checked + 1 == s.candidates.len() && t.verified.len() > 1 ==> if at(
                s.client.capabilities,
                "referencesProvider"@,
            ) == JsonView::Null {
                after(s, msg).action is Fail
            } else {
                can_ask(s) ==> t.stage == Stage::Disambiguate
            }
        }),
        s.checked + 1 == s.candidates.len() && after(s, msg).state.verified.len() == 0 ==> after(
            s,
            msg,
        ).action is Fail,
{
    lemma_answered(s, msg);
    let reply = if get(msg, "error"@) is None {
        Ok(at(msg, "result"@))
    } else {
        Err(choose|why: Seq<char>| after(s, msg) == #[trigger] replied(s, Err(why)))
    };
    reveal(replied);
    reveal(checked_one);
    lemma_verifying(
        SessionView {
            verified: if renameable(reply) {
                s.verified.push(s.candidates[s.checked as int])
            } else {
                s.verified
            },
            checked: s.checked + 1,
            ..s
        },
    );
}

/// Whether a candidate stands within a location of a list.
pub open spec fn stands_in(list: Seq<JsonView>, uri: Seq<char>, c: CandidateView) -> bool {
    exists|i: int| 0 <= i < list.len() && covers(#[trigger] list[i], uri, c)
}

/// Whether each verified candidate but the first stands within a location of a list.
pub open spec fn others_covered(
    list: Seq<JsonView>,
    uri: Seq<char>,
    verified: Seq<CandidateView>,
) -> bool {
    forall|k: int| 1 <= k < verified.len() ==> stands_in(list, uri, #[trigger] verified[k])
}

proof fn lemma_others_covered(list: Seq<JsonView>, uri: Seq<char>, verified: Seq<CandidateView>)
    ensures
        others_covered(list, uri, verified) == one_symbol(list, uri, verified),
{
    assert forall|c: CandidateView| #[trigger]
        stands_in(list, uri, c) == covered_by(list, uri, c) by {}
}

/// Where several candidates were verified, the session goes on exactly where the
/// references of the first cover all the others; where the server cannot tell, it fails.
pub proof fn lemma_several_candidates_are_compared(
    s: SessionView,
    msg: JsonView,
    list: Seq<JsonView>,
)
    requires
        sound(s),
        s.stage == Stage::Disambiguate,
        s.candidates.len() > 0,
        s.verified.len() > 1,
        s.command is Rename,
        can_ask(s),
        is_answered(s, msg),
    ensures
        get(msg, "error"@) is Some ==> after(s, msg).action is Fail,
        get(msg, "error"@) is None && at(msg, "result"@) == JsonView::Array(list) ==> (
        others_covered(list, s.uri, s.verified) <==> after(s, msg).state.stage == Stage::Prepare),
        get(msg, "error"@) is None && at(msg, "result"@) == JsonView::Array(list) && after(
            s,
            msg,
        ).state.stage != Stage::Prepare ==> after(s, msg).action is Fail,
{
    lemma_answered(s, msg);
    reveal(replied);
    reveal(compared);
    lemma_concluded(s, ReferencesView::Unavailable);
    lemma_concluded(s, ReferencesView::Known(list));
    lemma_others_covered(list, s.uri, s.verified);
}

// ---------------------------------------------------------------------------
// What becomes of the answers
// ---------------------------------------------------------------------------

/// The handshake ends with the note that the protocol wants, and with what the server
/// can do; a server that does not count columns in UTF-16 is refused.
pub proof fn lemma_handshake(s: SessionView, msg: JsonView, encoding: Seq<char>)
    requires
        sound(s),
        s.stage == Stage::Initialize,
        is_answered(s, msg),
        get(msg, "error"@) is None,
    ensures
        ({
            let st = after(s, msg);
            let said = at(at(at(msg, "result"@), "capabilities"@), "positionEncoding"@);
            &&& st.state.client.capabilities == at(at(msg, "result"@), "capabilities"@)
            &&& said == JsonView::Null || said == JsonView::Text("utf-16"@) ==> st.state.stage
                == Stage::Initialized && exists|m: JsonView| #[trigger]
                sends(st, m) && notifies(m, "initialized"@)
            &&& said == JsonView::Text(encoding) && encoding != "utf-16"@ ==> st.action is Fail
        }),
{
    lemma_answered(s, msg);
    reveal(replied);
    reveal(greeted);
    let params = JsonView::Object(crate::client::no_members());
    lemma_notification("initialized"@, params);
    let m = crate::client::notification_json("initialized"@, params);
    assert(message_bytes(m) == initialized_frame());
    if encoding_refusal(at(msg, "result"@)) is None {
        assert(sends(after(s, msg), m));
    }
}

/// What is printed of a check are the diagnostics of the session's own document: those
/// that the server reported, or those it pushed where it reported none; shown against
/// the text that the server was handed.
pub proof fn lemma_diagnostics_become_the_result(
    s: SessionView,
    msg: JsonView,
    file: Seq<char>,
    raw: bool,
    list: Seq<JsonView>,
)
    requires
        sound(s),
        s.stage == Stage::Diagnose,
        is_answered(s, msg),
        get(msg, "error"@) is None,
        s.command == (CommandView::Diagnostics { file, raw }),
        can_ask(s),
        at(at(msg, "result"@), "items"@) == JsonView::Array(list),
    ensures
        ({
            let t = after(s, msg).state;
            let d = if list.len() == 0 && s.client.pushed.contains_key(s.uri) {
                s.client.pushed[s.uri]
            } else {
                JsonView::Array(list)
            };
            &&& t.stage == Stage::Shutdown
            &&& t.output == diagnostics_json(s.workspace, file, s.content, raw, d)
        }),
{
    lemma_answered(s, msg);
    reveal(replied);
    reveal(diagnosed);
    lemma_finishing(
        s,
        diagnostics_json(
            s.workspace,
            file,
            s.content,
            raw,
            diagnostics_for(s.client, s.uri, at(msg, "result"@)),
        ),
    );
}

/// A rename is asked for exactly where the server would rename: an answer that is null,
/// or an error, ends the session with a failure.
pub proof fn lemma_rename_needs_consent(s: SessionView, msg: JsonView)
    requires
        sound(s),
        s.stage == Stage::Prepare,
        s.command is Rename,
        is_answered(s, msg),
    ensures
        get(msg, "error"@) is None && at(msg, "result"@) != JsonView::Null && can_ask(s) ==> after(
            s,
            msg,
        ).state.stage == Stage::Rename,
        get(msg, "error"@) is Some || at(msg, "result"@) == JsonView::Null ==> after(
            s,
            msg,
        ).action is Fail,
{
    lemma_answered(s, msg);
    reveal(replied);
    reveal(prepared);
}

/// The server's edit is taken as it is, and its files are what it collects to, in the
/// order of their URIs, with nothing read yet; an edit that cannot be taken, or an
/// error, is a failure.
pub proof fn lemma_edit_is_taken(s: SessionView, msg: JsonView)
    requires
        sound(s),
        s.stage == Stage::Rename,
        is_answered(s, msg),
    ensures
        get(msg, "error"@) is Some ==> after(s, msg).action is Fail,
        get(msg, "error"@) is None ==> match collected(at(msg, "result"@)) {
            Ok(files) => {
                let st = after(s, msg);
                &&& st.state.edit == at(msg, "result"@)
                &&& st.state.files == listing(files)
                &&& st.state.changes.len() == 0
                &&& listing(files).len() > 0 && decodable(listing(files)[0].0)
                    ==> st.state.stage == Stage::ReadEdits && st.action == ActionView::Read(
                    path_of(listing(files)[0].0),
                )
            },
            Err(_) => after(s, msg).action is Fail,
        },
{
    lemma_answered(s, msg);
    reveal(replied);
    reveal(renamed);
    match collected(at(msg, "result"@)) {
        Ok(m) => {
            lemma_gathering(
                SessionView {
                    edit: at(msg, "result"@),
                    files: listing(m),
                    changes: Seq::empty(),
                    ..s
                },
            );
        },
        Err(_) => {},
    }
}

/// The locations that the server names are taken as they are, all of them; null names
/// none, and the file of the first is read first.
pub proof fn lemma_locations_are_taken(s: SessionView, msg: JsonView, list: Seq<JsonView>)
    requires
        sound(s),
        s.stage == Stage::Find,
        is_answered(s, msg),
    ensures
        get(msg, "error"@) is Some ==> after(s, msg).action is Fail,
        get(msg, "error"@) is None && at(msg, "result"@) == JsonView::Array(list) ==> after(
            s,
            msg,
        ).state.locations == list,
        get(msg, "error"@) is None && at(msg, "result"@) == JsonView::Array(list) && list.len() > 0
            && decodable(location_uri(list[0])) ==> after(s, msg).action
            == ActionView::Read(path_of(location_uri(list[0]))),
        get(msg, "error"@) is None && at(msg, "result"@) == JsonView::Null ==> after(
            s,
            msg,
        ).state.locations.len() == 0,
{
    lemma_answered(s, msg);
    reveal(replied);
    reveal(references_found);
    let result = at(msg, "result"@);
    match locations_in(result) {
        Ok(l) => {
            lemma_sourcing(SessionView { locations: l, seen: 0, sources: Seq::empty(), ..s });
        },
        Err(_) => {},
    }
}

/// What was read for a location's file is kept for it, under its path; a file that could
/// not be read is kept without a text, and holds nothing up.
pub proof fn lemma_sources_are_kept(s: SessionView, found: Result<Seq<char>, Seq<char>>)
    requires
        sound(s),
        s.stage == Stage::ReadSources,
    ensures
        ({
            let st = step_of(s, EventView::Content(found));
            let uri = location_uri(s.locations[s.seen as int]);
            decodable(uri) ==> {
                &&& st.state.sources.len() == s.sources.len() + 1
                &&& st.state.sources.take(s.sources.len() as int) == s.sources
                &&& st.state.sources.last().path == path_of(uri)
                &&& match found {
                    Ok(text) => st.state.sources.last().text == Some(text),
                    Err(_) => st.state.sources.last().text is None,
                }
                &&& !(st.action is Fail)
            }
        }),
        locations_decodable(s.locations) && s.line < usize::MAX && can_ask(s) ==> step_of(
            s,
            EventView::Content(found),
        ).state.stage != Stage::Ended,
{
    reveal(took_source);
    let t = with_source(s, found);
    lemma_one_more_source(s, found);
    lemma_sourcing(t);
    assert(t.sources.take(s.sources.len() as int) =~= s.sources);
    assert(decodable(location_uri(s.locations[s.seen as int])) ==> step_of(
        s,
        EventView::Content(found),
    ) == sourcing(t));
}

/// What was read of a file to edit is kept with that file's path and its own edits, and
/// then the next file is read; when the last has been read, the result shows what all of
/// them become.
pub proof fn lemma_files_to_edit_are_kept(s: SessionView, text: Seq<char>)
    requires
        sound(s),
        s.stage == Stage::ReadEdits,
        decodable(s.files[s.changes.len() as int].0),
    ensures
        ({
            let st = step_of(s, EventView::Content(Ok(text)));
            let n = s.changes.len() as int;
            &&& st.state.changes.len() == n + 1
            &&& st.state.changes.take(n) == s.changes
            &&& st.state.changes[n].path == path_of(s.files[n].0)
            &&& st.state.changes[n].text == text
            &&& st.state.changes[n].edits == s.files[n].1
            &&& n + 1 < s.files.len() && decodable(s.files[n + 1].0)
                ==> st.state.stage == Stage::ReadEdits && st.action == ActionView::Read(
                path_of(s.files[n + 1].0),
            )
            &&& n + 1 == s.files.len() && can_summarize(st.state) && can_ask(s)
                && decodable(s.files[0].0) ==> st.state.output == rename_output(st.state)
                && st.state.stage == if edits_files(s.command) {
                Stage::ReadAgain
            } else {
                Stage::Shutdown
            }
            &&& n + 1 == s.files.len() && !can_summarize(st.state) ==> st.action is Abort
        }),
{
    reveal(took_edited);
    let (uri, edits) = s.files[s.changes.len() as int];
    let t = SessionView {
        changes: s.changes.push(FileChangeView { path: path_of(uri), text, edits }),
        ..s
    };
    lemma_gathering(t);
    assert(t.changes.take(s.changes.len() as int) =~= s.changes);
}

// ---------------------------------------------------------------------------
// What a rename writes
// ---------------------------------------------------------------------------

/// A rename that is to be applied comes to its end only when every file of the edit has
/// been written, however many there are.
pub proof fn lemma_all_files_written(s: SessionView, e: EventView)
    requires
        sound(s),
        edits_files(s.command),
        s.stage != Stage::Shutdown,
        step_of(s, e).state.stage == Stage::Shutdown,
    ensures
        step_of(s, e).state.written == step_of(s, e).state.files.len(),
{
    lemma_steps_are_proper(s, e);
}

/// A written file counts once, and the next one is read; a file that could not be
/// written ends the session with a failure.
pub proof fn lemma_writing_goes_on(s: SessionView, why: Seq<char>)
    requires
        sound(s),
        s.stage == Stage::Write,
        decodable(s.files[s.written as int].0),
    ensures
        ({
            let st = step_of(s, EventView::Written(Ok(())));
            &&& st.state.written == s.written + 1
            &&& s.written + 1 < s.files.len() && decodable(
                s.files[s.written as int + 1].0,
            ) ==> st.state.stage == Stage::ReadAgain && st.action == ActionView::Read(
                path_of(s.files[s.written as int + 1].0),
            )
            &&& s.written + 1 == s.files.len() && can_ask(s) ==> st.state.stage
                == Stage::Shutdown
        }),
        step_of(s, EventView::Written(Err(why))).action is Fail,
{
    reveal(took_written);
    lemma_writing(SessionView { written: s.written + 1, ..s });
}

/// The state that events lead to.
pub open spec fn ran(s: SessionView, events: Seq<EventView>) -> SessionView
    decreases events.len(),
{
    if events.len() == 0 {
        s
    } else {
        step_of(ran(s, events.drop_last()), events.last()).state
    }
}

/// The paths that are written on the way, in order.
pub open spec fn paths_written(s: SessionView, events: Seq<EventView>) -> Seq<Seq<char>>
    decreases events.len(),
{
    if events.len() == 0 {
        Seq::empty()
    } else {
        let before = paths_written(s, events.drop_last());
        match step_of(ran(s, events.drop_last()), events.last()).action {
            ActionView::Write { path, .. } => before.push(path),
            _ => before,
        }
    }
}

/// The paths of the first files of an edit.
pub open spec fn paths_to(
    files: Seq<(Seq<char>, Seq<TextEditView>)>,
    n: int,
) -> Seq<Seq<char>> {
    Seq::new(n as nat, |k: int| path_of(files[k].0))
}

/// What has been written in each stage.
spec fn written_so_far(s: SessionView, paths: Seq<Seq<char>>) -> bool {
    match s.stage {
        Stage::Ended => true,
        Stage::ReadAgain => paths == paths_to(s.files, s.written as int),
        Stage::Write => paths == paths_to(s.files, s.written as int + 1),
        Stage::Shutdown | Stage::Exit => if edits_files(s.command) {
            paths == paths_to(s.files, s.files.len() as int)
        } else {
            paths.len() == 0
        },
        _ => paths.len() == 0,
    }
}

proof fn lemma_written_step(s: SessionView, e: EventView, paths: Seq<Seq<char>>)
    requires
        sound(s),
        written_so_far(s, paths),
    ensures
        written_so_far(
            step_of(s, e).state,
            match step_of(s, e).action {
                ActionView::Write { path, .. } => paths.push(path),
                _ => paths,
            },
        ),
{
    lemma_steps_are_proper(s, e);
    lemma_lifecycle(s, e);
    let st = step_of(s, e);
    if st.action is Write {
        crate::lifecycle::lemma_writes_are_edits(s, e);
        assert(st.state.stage == Stage::Write) by {
            reveal(took_again);
        }
        assert(paths.push(path_of(s.files[s.written as int].0)) =~= paths_to(
            st.state.files,
            s.written as int + 1,
        ));
    } else if st.state.stage == Stage::Write {
        reveal(took_again);
    } else if s.stage == Stage::Rename || s.stage == Stage::ReadEdits {
        if after_reading(st.state.stage) {
            assert(paths =~= paths_to(st.state.files, 0));
        }
    } else if s.stage == Stage::Write && st.state.stage != Stage::Ended {
        assert(paths =~= paths_to(st.state.files, st.state.written as int));
    }
}

/// From its first step to the end of its work, a session writes every file of the edit,
/// each once and in order, where it is to apply a rename; and nothing otherwise.
pub proof fn lemma_applied_rename_writes_every_file(
    workspace: Seq<char>,
    server_cmd: Seq<char>,
    timeout: nat,
    command: CommandView,
    events: Seq<EventView>,
)
    ensures
        ({
            let first = first_state(workspace, server_cmd, timeout, command);
            let last = ran(first, events);
            let paths = paths_written(first, events);
            &&& sound(last)
            &&& last.command == command
            &&& last.stage == Stage::Shutdown || last.stage == Stage::Exit ==> {
                &&& edits_files(command) ==> paths.len() == last.files.len() && forall|k: int|
                    0 <= k < paths.len() ==> #[trigger] paths[k] == path_of(last.files[k].0)
                &&& !edits_files(command) ==> paths.len() == 0
            }
        }),
{
    lemma_written_run(workspace, server_cmd, timeout, command, events);
}

proof fn lemma_written_run(
    workspace: Seq<char>,
    server_cmd: Seq<char>,
    timeout: nat,
    command: CommandView,
    events: Seq<EventView>,
)
    ensures
        ({
            let first = first_state(workspace, server_cmd, timeout, command);
            &&& sound(ran(first, events))
            &&& ran(first, events).command == command
            &&& written_so_far(ran(first, events), paths_written(first, events))
        }),
    decreases events.len(),
{
    if events.len() > 0 {
        let first = first_state(workspace, server_cmd, timeout, command);
        let before = events.drop_last();
        lemma_written_run(workspace, server_cmd, timeout, command, before);
        lemma_written_step(ran(first, before), events.last(), paths_written(first, before));
        lemma_steps_are_proper(ran(first, before), events.last());
    }
}

// ---------------------------------------------------------------------------
// Failures and interruptions
// ---------------------------------------------------------------------------

/// Whether a step fails for a reason, and the reason is the end of what it says.
pub open spec fn fails_for(st: Step, why: Seq<char>) -> bool {
    match st.action {
        ActionView::Fail(e) => st.state.stage == Stage::Ended && ends_with(e.message, why),
        _ => false,
    }
}

/// Whether a step fails for a reason that has to do with a file, and names the file.
pub open spec fn fails_over(st: Step, path: Seq<char>, why: Seq<char>) -> bool {
    match st.action {
        ActionView::Fail(e) => fails_for(st, why) && mentions(e.message, path),
        _ => false,
    }
}

/// A path that is not found, or a file that cannot be read or written, ends the session,
/// and the caller is told why: the reason that came with the event stands at the end of
/// the message, behind the path that it is about.
pub proof fn lemma_file_failures_say_why(s: SessionView, why: Seq<char>)
    requires
        sound(s),
    ensures
        s.stage == Stage::Root ==> fails_for(step_of(s, EventView::Located(Err(why))), why),
        s.stage == Stage::Resolve ==> fails_over(
            step_of(s, EventView::Located(Err(why))),
            joined(s.workspace, command_file(s.command)),
            why,
        ),
        s.stage == Stage::Open ==> fails_over(
            step_of(s, EventView::Content(Err(why))),
            s.path,
            why,
        ),
        s.stage == Stage::Scan ==> fails_for(step_of(s, EventView::Content(Err(why))), why),
        s.stage == Stage::ReadEdits && decodable(s.files[s.changes.len() as int].0) ==> fails_over(
            step_of(s, EventView::Content(Err(why))),
            path_of(s.files[s.changes.len() as int].0),
            why,
        ),
        s.stage == Stage::ReadAgain && decodable(s.files[s.written as int].0) ==> fails_over(
            step_of(s, EventView::Content(Err(why))),
            path_of(s.files[s.written as int].0),
            why,
        ),
        s.stage == Stage::Write && decodable(s.files[s.written as int].0) ==> fails_over(
            step_of(s, EventView::Written(Err(why))),
            path_of(s.files[s.written as int].0),
            why,
        ),
{
    match s.stage {
        Stage::Root | Stage::Scan => {
            lemma_parts_of_message(why, why, why, why);
        },
        Stage::Resolve => {
            lemma_parts_of_message(
                "file not found: "@,
                joined(s.workspace, command_file(s.command)),
                ": "@,
                why,
            );
        },
        Stage::Open => {
            lemma_parts_of_message("reading "@, s.path, ": "@, why);
        },
        Stage::ReadEdits => {
            reveal(took_edited);
            let path = path_of(s.files[s.changes.len() as int].0);
            lemma_parts_of_message("reading "@, path, ": "@, why);
        },
        Stage::ReadAgain => {
            reveal(took_again);
            lemma_parts_of_message("reading "@, path_of(s.files[s.written as int].0), ": "@, why);
        },
        Stage::Write => {
            reveal(took_written);
            lemma_parts_of_message("writing "@, path_of(s.files[s.written as int].0), ": "@, why);
        },
        _ => {},
    }
}

/// A message that cannot be sent, or that cannot be read, ends the session for the reason
/// that came with it.
pub proof fn lemma_transport_failures_say_why(s: SessionView, why: Seq<char>)
    requires
        sound(s),
    ensures
        s.stage == Stage::Initialized || s.stage == Stage::Opened || (is_request(s.stage)
            && s.stage != Stage::Disambiguate && s.phase == Phase::Sending) ==> fails_for(
            step_of(s, EventView::SendFailed(why)),
            why,
        ),
        (s.stage == Stage::Initialize || s.stage == Stage::Diagnose || s.stage == Stage::Rename
            || s.stage == Stage::Find) && s.phase == Phase::Waiting ==> fails_for(
            step_of(s, EventView::Incoming(IncomingView::Broken(why))),
            why,
        ),
{
    lemma_parts_of_message(why, why, why, why);
    reveal(exchanged);
    match s.stage {
        Stage::Initialize | Stage::Diagnose | Stage::Rename | Stage::Find => {
            lemma_error_replies(s, why);
        },
        _ => {},
    }
}

/// An error in place of an answer is what the session fails with.
proof fn lemma_error_replies(s: SessionView, why: Seq<char>)
    requires
        s.stage == Stage::Initialize || s.stage == Stage::Diagnose || s.stage == Stage::Rename
            || s.stage == Stage::Find,
    ensures
        replied(s, Err(why)).state.stage == Stage::Ended,
        replied(s, Err(why)).action == ActionView::Fail(crate::error::plain_error(why)),
{
    reveal(replied);
    reveal(greeted);
    reveal(diagnosed);
    reveal(renamed);
    reveal(references_found);
}

/// The server's own error is passed on in the server's words.
pub proof fn lemma_server_errors_are_passed_on(s: SessionView, msg: JsonView, err: JsonView)
    requires
        sound(s),
        is_answered(s, msg),
        s.stage == Stage::Initialize || s.stage == Stage::Diagnose || s.stage == Stage::Rename
            || s.stage == Stage::Find,
        get(msg, "error"@) == Some(err),
    ensures
        fails_for(after(s, msg), crate::json::json_text(err)),
{
    reveal(exchanged);
    lemma_error_replies(
        s,
        "server returned error for id "@ + crate::text::signed_decimal(s.id) + ": "@
            + crate::json::json_text(err),
    );
    lemma_parts_of_message(
        "server returned error for id "@,
        crate::text::signed_decimal(s.id),
        ": "@,
        crate::json::json_text(err),
    );
}

/// A question of the server's is answered on the spot and changes nothing else: the
/// session waits for its own answer as before.
pub proof fn lemma_questions_do_not_disturb(
    s: SessionView,
    msg: JsonView,
    method: Seq<char>,
    server_id: JsonView,
)
    requires
        is_request(s.stage),
        s.phase == Phase::Waiting,
        at(msg, "method"@) == JsonView::Text(method),
        get(msg, "id"@) == Some(server_id),
    ensures
        exists|m: JsonView| #[trigger]
            sends(after(s, msg), m) && get(m, "id"@) == Some(server_id) && get(m, "method"@) is None
                && get(m, "result"@) is Some,
        after(s, msg).state == (SessionView { phase: Phase::Replying, ..s }),
        step_of(after(s, msg).state, EventView::Sent).state == s,
        step_of(after(s, msg).state, EventView::Sent).action is Receive,
{
    reveal(exchanged);
    crate::messages::lemma_questions_answered(s.client, s.id, msg, method, server_id);
    match waited(s.client, s.id, IncomingView::Frame(msg)).1 {
        WaitedView::Answer(frame) => {
            let m = choose|m: JsonView| #[trigger]
                message_bytes(m) == frame && get(m, "id"@) == Some(server_id) && get(
                    m,
                    "method"@,
                ) is None && get(m, "result"@) is Some;
            assert(sends(after(s, msg), m));
        },
        _ => {},
    }
}

/// A message that is neither the answer nor a question is passed over: the session keeps
/// waiting with what it had, but for diagnostics that it was pushed.
pub proof fn lemma_other_messages_are_passed_over(s: SessionView, msg: JsonView)
    requires
        is_request(s.stage),
        s.phase == Phase::Waiting,
        i64::MIN <= s.id <= i64::MAX,
        !answers(msg, s.id),
        as_str(at(msg, "method"@)) is Some ==> get(msg, "id"@) is None,
    ensures
        after(s, msg).action is Receive,
        after(s, msg).state == (SessionView { client: after(s, msg).state.client, ..s }),
        as_str(at(msg, "method"@)) != Some("textDocument/publishDiagnostics"@) ==> after(
            s,
            msg,
        ).state == s,
{
    reveal(exchanged);
}

/// Diagnostics that the server pushes while an answer is waited for are kept for their
/// document, in the place of those that it had before.
pub proof fn lemma_pushed_diagnostics_are_remembered(
    s: SessionView,
    msg: JsonView,
    uri: Seq<char>,
    other: Seq<char>,
)
    requires
        is_request(s.stage),
        s.phase == Phase::Waiting,
        at(msg, "method"@) == JsonView::Text("textDocument/publishDiagnostics"@),
        get(msg, "id"@) is None,
        at(at(msg, "params"@), "uri"@) == JsonView::Text(uri),
    ensures
        ({
            let pushed = after(s, msg).state.client.pushed;
            &&& pushed.contains_key(uri)
            &&& pushed[uri] == at(at(msg, "params"@), "diagnostics"@)
            &&& other != uri ==> pushed.contains_key(other) == s.client.pushed.contains_key(other)
            &&& other != uri && s.client.pushed.contains_key(other) ==> pushed[other]
                == s.client.pushed[other]
        }),
        after(s, msg).action is Receive,
{
    reveal(exchanged);
}

/// A message that was sent is waited on.
pub proof fn lemma_sent_questions_are_waited_on(s: SessionView)
    requires
        is_request(s.stage),
        s.phase == Phase::Sending,
    ensures
        step_of(s, EventView::Sent).action is Receive,
        step_of(s, EventView::Sent).state == (SessionView { phase: Phase::Waiting, ..s }),
{
    reveal(exchanged);
}

/// The last message tells the server to go.
pub proof fn lemma_server_is_told_to_go(s: SessionView, msg: JsonView)
    requires
        sound(s),
        s.stage == Stage::Shutdown,
        is_answered(s, msg),
    ensures
        after(s, msg).state.stage == Stage::Exit,
        after(s, msg).state.output == s.output,
        exists|m: JsonView| #[trigger] sends(after(s, msg), m) && notifies(m, "exit"@),
{
    lemma_answered(s, msg);
    reveal(replied);
    lemma_notification("exit"@, JsonView::Null);
    let m = crate::client::notification_json("exit"@, JsonView::Null);
    assert(sends(after(s, msg), m));
}

// ---------------------------------------------------------------------------
// How a session begins
// ---------------------------------------------------------------------------

/// A session begins with what it was given: the workspace, the command, and the time to
/// wait; it knows nothing of the server yet, and a server that is missing is named by the
/// first word of its command.
pub proof fn lemma_begins_with_what_is_given(
    workspace: Seq<char>,
    server_cmd: Seq<char>,
    timeout: nat,
    command: CommandView,
    reason: Seq<char>,
)
    ensures
        ({
            let s = first_state(workspace, server_cmd, timeout, command);
            &&& s.stage == Stage::Spawn
            &&& s.workspace == workspace
            &&& s.command == command
            &&& s.client.timeout == timeout
            &&& s.client.next_id == 0
            &&& s.client.capabilities == JsonView::Null
            &&& s.client.pushed.dom() == Set::<Seq<char>>::empty()
            &&& match step_of(s, EventView::SpawnFailed { missing: true, reason }).action {
                ActionView::Fail(e) => mentions(
                    e.message,
                    crate::text::str_debug(words_of(server_cmd)[0]),
                ),
                _ => false,
            }
            &&& match step_of(s, EventView::SpawnFailed { missing: false, reason }).action {
                ActionView::Fail(e) => mentions(e.message, server_cmd) && ends_with(
                    e.message,
                    reason,
                ),
                _ => false,
            }
        }),
{
    lemma_spawn_failures_say_why(reason, server_cmd, words_of(server_cmd)[0]);
    assert(Map::<Seq<char>, JsonView>::empty().dom() =~= Set::<Seq<char>>::empty());
}

/// Whether an event is one that a session waits for, outside its requests.
pub open spec fn is_expected(stage: Stage, e: EventView) -> bool {
    match stage {
        Stage::Spawn => e is Spawned || e is SpawnFailed,
        Stage::Root | Stage::Resolve => e is Located,
        Stage::Initialized | Stage::Opened | Stage::Exit => e is Sent || e is SendFailed,
        Stage::Open | Stage::Scan | Stage::ReadEdits | Stage::ReadAgain | Stage::ReadSources
            => e is Content,
        Stage::Write => e is Written,
        _ => false,
    }
}

/// An event that does not belong to a stage ends the session at once, with nothing done.
pub proof fn lemma_unexpected_events_abort(s: SessionView, e: EventView)
    requires
        !is_request(s.stage),
        !is_expected(s.stage, e),
    ensures
        step_of(s, e).action is Abort,
        step_of(s, e).state.stage == Stage::Ended,
{
}

/// In an exchange with the server, what was sent is reported while it is sent, and what
/// comes is reported while it is waited for; anything else ends the session at once.
pub proof fn lemma_unexpected_messages_abort(s: SessionView, e: EventView)
    requires
        is_request(s.stage),
        s.phase == Phase::Waiting ==> !(e is Incoming),
        s.phase != Phase::Waiting ==> !(e is Sent) && !(e is SendFailed),
    ensures
        step_of(s, e).action is Abort,
        step_of(s, e).state.stage == Stage::Ended,
{
    reveal(exchanged);
}

/// Silence and the end of the stream end the session with a failure, and so does an
/// answer to the server that cannot be sent; where the server is asked whether candidates
/// are one symbol, whatever keeps it from answering leaves them ambiguous.
pub proof fn lemma_broken_exchanges_fail(s: SessionView, why: Seq<char>)
    requires
        sound(s),
        s.stage == Stage::Initialize || s.stage == Stage::Diagnose || s.stage == Stage::Rename
            || s.stage == Stage::Find || (s.stage == Stage::Disambiguate && s.candidates.len() > 0
            && s.verified.len() > 1),
    ensures
        s.phase == Phase::Waiting ==> step_of(
            s,
            EventView::Incoming(IncomingView::Timeout),
        ).action is Fail,
        s.phase == Phase::Waiting ==> step_of(
            s,
            EventView::Incoming(IncomingView::Disconnected),
        ).action is Fail,
        s.phase == Phase::Replying ==> step_of(s, EventView::SendFailed(why)).action is Fail,
        s.phase == Phase::Sending ==> step_of(s, EventView::SendFailed(why)).action is Fail,
{
    reveal(exchanged);
    crate::messages::lemma_broken_waits(s.client, s.id, why);
    if s.stage == Stage::Disambiguate {
        reveal(replied);
        reveal(compared);
        lemma_concluded(s, ReferencesView::Unavailable);
    } else {
        assert forall|w: Seq<char>| (#[trigger] replied(s, Err(w))).action is Fail by {
            lemma_error_replies(s, w);
        }
    }
}

/// A file that was read again is written, with its edits, wherever they can be made; where
/// they cannot, nothing more is written.
pub proof fn lemma_files_are_written(s: SessionView, text: Seq<char>)
    requires
        sound(s),
        s.stage == Stage::ReadAgain,
        decodable(s.files[s.written as int].0),
    ensures
        ({
            let st = step_of(s, EventView::Content(Ok(text)));
            let (uri, edits) = s.files[s.written as int];
            &&& applicable(text, edits) ==> st.state.stage == Stage::Write && st.action == (
            ActionView::Write {
                path: path_of(uri),
                text: vstd::utf8::decode_utf8(edited(text, edits)),
            })
            &&& !applicable(text, edits) ==> st.action is Abort
        }),
{
    reveal(took_again);
}

} // verus!
