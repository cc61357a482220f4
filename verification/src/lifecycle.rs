//! What holds of every session, step by step.

use vstd::prelude::*;
use vstd::utf8::decode_utf8;

use crate::apply::{applicable, edited};
use crate::client::{notification_json, waited, WaitedView};
use crate::json::JsonView;
use crate::resolve::ReferencesView;
use crate::session::{
    checked_one, compared, concluded, diagnosed, exchanged, finding, finishing, first_state,
    gathering, greeted, is_request, prepared, references_found, renamed, replied, sourcing,
    step_of, summarizing, targeted, took_again, took_edited, took_source, took_written,
    verifying, working, writing, ActionView, CommandView, EventView, Phase, SessionView, Stage,
    Step,
};
use crate::transport::message_bytes;
use crate::uri::path_of;

verus! {

/// Whether a step leaves the order alone, sends requests under new ids only, and
/// writes nothing.
pub open spec fn orderly(s: SessionView, st: Step) -> bool {
    &&& st.state.command == s.command
    &&& st.state.workspace == s.workspace
    &&& st.state.client.next_id == s.client.next_id || (st.state.client.next_id
        == s.client.next_id + 1 && st.state.id == st.state.client.next_id)
    &&& !(st.action is Write)
    &&& !(st.action is Finish)
}

/// Whether a command changes files.
pub open spec fn edits_files(c: CommandView) -> bool {
    match c {
        CommandView::Rename(q) => q.apply,
        _ => false,
    }
}

/// The stages that may follow a stage. Whatever the stage, a session may end.
pub open spec fn follows(a: Stage, b: Stage) -> bool {
    ||| b == Stage::Ended
    ||| match a {
        Stage::Spawn => b == Stage::Root,
        Stage::Root => b == Stage::Initialize,
        Stage::Initialize => b == Stage::Initialize || b == Stage::Initialized,
        Stage::Initialized => b == Stage::Resolve,
        Stage::Resolve => b == Stage::Open,
        Stage::Open => b == Stage::Opened,
        Stage::Opened => b == Stage::Diagnose || b == Stage::Scan || b == Stage::Prepare || b
            == Stage::Find,
        Stage::Diagnose => b == Stage::Diagnose || b == Stage::Shutdown,
        Stage::Scan => b == Stage::Verify || after_candidates(b),
        Stage::Verify => b == Stage::Verify || after_candidates(b),
        Stage::Disambiguate => after_candidates(b),
        Stage::Prepare => b == Stage::Prepare || b == Stage::Rename,
        Stage::Rename => b == Stage::Rename || b == Stage::ReadEdits || after_reading(b),
        Stage::ReadEdits => b == Stage::ReadEdits || after_reading(b),
        Stage::ReadAgain => b == Stage::Write,
        Stage::Write => after_reading(b),
        Stage::Find => b == Stage::Find || b == Stage::ReadSources || b == Stage::Shutdown,
        Stage::ReadSources => b == Stage::ReadSources || b == Stage::Shutdown,
        Stage::Shutdown => b == Stage::Shutdown || b == Stage::Exit,
        Stage::Exit | Stage::Ended => false,
    }
}

/// The stages behind the look at a symbol's candidates.
pub open spec fn after_candidates(b: Stage) -> bool {
    b == Stage::Disambiguate || b == Stage::Prepare || b == Stage::Find
}

/// The stages behind the reading of the files to edit.
pub open spec fn after_reading(b: Stage) -> bool {
    b == Stage::ReadAgain || b == Stage::Shutdown
}

proof fn lemma_finishing(s: SessionView, output: JsonView)
    ensures
        orderly(s, finishing(s, output)),
        finishing(s, output).state.stage == Stage::Shutdown || finishing(s, output).state.stage
            == Stage::Ended,
{
    reveal(finishing);
}

proof fn lemma_targeted(s: SessionView, line: nat, character: nat, from_symbol: bool)
    ensures
        orderly(s, targeted(s, line, character, from_symbol)),
        ({
            let b = targeted(s, line, character, from_symbol).state.stage;
            b == Stage::Prepare || b == Stage::Find || b == Stage::Ended
        }),
{
    reveal(targeted);
    reveal(finding);
}

proof fn lemma_concluded(s: SessionView, references: ReferencesView)
    ensures
        orderly(s, concluded(s, references)),
        ({
            let b = concluded(s, references).state.stage;
            after_candidates(b) || b == Stage::Ended
        }),
{
    reveal(concluded);
    let r = crate::resolve::resolution(
        s.uri,
        crate::session::command_file(s.command),
        s.symbol,
        s.candidates,
        s.verified,
        references,
    );
    match r {
        crate::resolve::ResolutionView::Found { line, character } => {
            lemma_targeted(s, line, character, true);
        },
        _ => {},
    }
}

proof fn lemma_verifying(s: SessionView)
    ensures
        orderly(s, verifying(s)),
        ({
            let b = verifying(s).state.stage;
            b == Stage::Verify || after_candidates(b) || b == Stage::Ended
        }),
{
    reveal(verifying);
    lemma_concluded(s, ReferencesView::Unasked);
}

proof fn lemma_working(s: SessionView)
    ensures
        orderly(s, working(s)),
        follows(Stage::Opened, working(s).state.stage),
{
    reveal(working);
    match s.command {
        CommandView::Rename(q) => match crate::resolve::target_of(q.target) {
            crate::resolve::TargetView::Position { line, character } => {
                lemma_targeted(s, line, character, false);
            },
            _ => {},
        },
        CommandView::References { target, .. } => match crate::resolve::target_of(target) {
            crate::resolve::TargetView::Position { line, character } => {
                lemma_targeted(s, line, character, false);
            },
            _ => {},
        },
        _ => {},
    }
}

proof fn lemma_writing(s: SessionView)
    ensures
        orderly(s, writing(s)),
        ({
            let b = writing(s).state.stage;
            after_reading(b) || b == Stage::Ended
        }),
{
    reveal(writing);
    lemma_finishing(s, s.output);
}

proof fn lemma_gathering(s: SessionView)
    ensures
        orderly(s, gathering(s)),
        ({
            let b = gathering(s).state.stage;
            b == Stage::ReadEdits || after_reading(b) || b == Stage::Ended
        }),
        gathering(s).state.stage == Stage::ReadAgain ==> edits_files(s.command),
{
    reveal(gathering);
    reveal(summarizing);
    match s.command {
        CommandView::Rename(q) => {
            let output = crate::render::rename_json(
                s.workspace,
                q,
                s.line,
                s.from_symbol,
                s.changes.len(),
                crate::summary::edit_count(s.changes),
                crate::order::sorted_by(
                    crate::summary::all_rows(s.changes),
                    crate::summary::row_order(),
                ),
                s.edit,
            );
            lemma_writing(SessionView { output, written: 0, ..s });
            lemma_finishing(s, output);
        },
        _ => {},
    }
}

proof fn lemma_sourcing(s: SessionView)
    ensures
        orderly(s, sourcing(s)),
        ({
            let b = sourcing(s).state.stage;
            b == Stage::ReadSources || b == Stage::Shutdown || b == Stage::Ended
        }),
    decreases s.locations.len() - s.seen,
{
    if s.seen < s.locations.len() {
        lemma_sourcing(SessionView { seen: s.seen + 1, ..s });
    } else {
        match s.command {
            CommandView::References { file, target, raw } => {
                lemma_finishing(
                    s,
                    crate::render::references_json(
                        s.workspace,
                        file,
                        target,
                        s.line,
                        s.from_symbol,
                        raw,
                        s.sources,
                        s.locations,
                    ),
                );
            },
            _ => {},
        }
    }
}

proof fn lemma_replied(s: SessionView, reply: Result<JsonView, Seq<char>>)
    requires
        is_request(s.stage),
    ensures
        orderly(s, replied(s, reply)),
        follows(s.stage, replied(s, reply).state.stage),
        replied(s, reply).state.stage == Stage::ReadAgain ==> edits_files(s.command),
{
    reveal(replied);
    match s.stage {
        Stage::Initialize => {
            reveal(greeted);
        },
        Stage::Diagnose => {
            reveal(diagnosed);
            match (reply, s.command) {
                (Ok(report), CommandView::Diagnostics { file, raw }) => {
                    let d = crate::client::diagnostics_for(s.client, s.uri, report);
                    lemma_finishing(
                        s,
                        crate::render::diagnostics_json(s.workspace, file, s.content, raw, d),
                    );
                },
                _ => {},
            }
        },
        Stage::Verify => {
            reveal(checked_one);
            if s.checked < s.candidates.len() {
                lemma_verifying(
                    SessionView {
                        verified: if crate::client::renameable(reply) {
                            s.verified.push(s.candidates[s.checked as int])
                        } else {
                            s.verified
                        },
                        checked: s.checked + 1,
                        ..s
                    },
                );
            }
        },
        Stage::Disambiguate => {
            reveal(compared);
            lemma_concluded(s, ReferencesView::Unavailable);
            match reply {
                Ok(j) => match crate::client::locations_in(j) {
                    Ok(l) => {
                        lemma_concluded(s, ReferencesView::Known(l));
                    },
                    Err(_) => {},
                },
                Err(_) => {},
            }
        },
        Stage::Prepare => {
            reveal(prepared);
        },
        Stage::Rename => {
            reveal(renamed);
            match reply {
                Ok(edit) => match crate::workspace::collected(edit) {
                    Ok(m) => {
                        lemma_gathering(
                            SessionView {
                                edit,
                                files: crate::order::listing(m),
                                changes: Seq::empty(),
                                ..s
                            },
                        );
                    },
                    Err(_) => {},
                },
                Err(_) => {},
            }
        },
        Stage::Find => {
            reveal(references_found);
            match reply {
                Ok(j) => match crate::client::locations_in(j) {
                    Ok(l) => {
                        lemma_sourcing(
                            SessionView { locations: l, seen: 0, sources: Seq::empty(), ..s },
                        );
                    },
                    Err(_) => {},
                },
                Err(_) => {},
            }
        },
        _ => {},
    }
}

proof fn lemma_exchanged(s: SessionView, e: EventView)
    requires
        is_request(s.stage),
    ensures
        orderly(s, exchanged(s, e)),
        follows(s.stage, exchanged(s, e).state.stage),
        exchanged(s, e).state.stage == Stage::ReadAgain ==> edits_files(s.command),
{
    reveal(exchanged);
    match (s.phase, e) {
        (Phase::Sending, EventView::SendFailed(why)) => {
            lemma_concluded(s, ReferencesView::Unavailable);
        },
        (Phase::Waiting, EventView::Incoming(i)) => {
            let (c, w) = crate::client::waited(s.client, s.id, i);
            crate::client::lemma_waiting_keeps_ids(s.client, s.id, i);
            match w {
                crate::client::WaitedView::Done(reply) => {
                    lemma_replied(SessionView { client: c, ..s }, reply);
                },
                _ => {},
            }
        },
        (Phase::Replying, EventView::SendFailed(why)) => {
            lemma_replied(s, Err(why));
        },
        _ => {},
    }
}

/// A session goes through its stages in the order of the protocol: the server is
/// greeted before anything else and handed the file before it is asked about it,
/// and it is asked to stop before it is told to go. Every request goes out under
/// an id that no earlier one had, and the command stays what it was.
pub proof fn lemma_lifecycle(s: SessionView, e: EventView)
    ensures
        step_of(s, e).state.command == s.command,
        step_of(s, e).state.workspace == s.workspace,
        step_of(s, e).state.client.next_id == s.client.next_id || (step_of(
            s,
            e,
        ).state.client.next_id == s.client.next_id + 1 && step_of(s, e).state.id == step_of(
            s,
            e,
        ).state.client.next_id),
        follows(s.stage, step_of(s, e).state.stage),
        step_of(s, e).state.stage == Stage::ReadAgain && s.stage != Stage::Write ==> edits_files(
            s.command,
        ),
        step_of(s, e).action is Write ==> s.stage == Stage::ReadAgain,
        step_of(s, e).action is Finish ==> s.stage == Stage::Exit,
{
    if is_request(s.stage) {
        lemma_exchanged(s, e);
    } else {
        match (s.stage, e) {
            (Stage::Opened, EventView::Sent) => {
                lemma_working(s);
            },
            (Stage::Scan, EventView::Content(Ok(content))) => {
                lemma_verifying(
                    SessionView {
                        candidates: crate::resolve::candidates_of(content, s.symbol),
                        verified: Seq::empty(),
                        checked: 0,
                        ..s
                    },
                );
            },
            (Stage::ReadEdits, EventView::Content(found)) => {
                reveal(took_edited);
                if s.changes.len() < s.files.len() {
                    let (uri, edits) = s.files[s.changes.len() as int];
                    match found {
                        Ok(text) => {
                            lemma_gathering(
                                SessionView {
                                    changes: s.changes.push(
                                        crate::summary::FileChangeView {
                                            path: path_of(uri),
                                            text,
                                            edits,
                                        },
                                    ),
                                    ..s
                                },
                            );
                        },
                        Err(_) => {},
                    }
                }
            },
            (Stage::ReadAgain, EventView::Content(found)) => {
                reveal(took_again);
            },
            (Stage::Write, EventView::Written(done)) => {
                reveal(took_written);
                lemma_writing(SessionView { written: s.written + 1, ..s });
            },
            (Stage::ReadSources, EventView::Content(found)) => {
                reveal(took_source);
                lemma_sourcing(
                    SessionView {
                        sources: s.sources.push(
                            crate::render::SourceView {
                                path: path_of(
                                    crate::render::location_uri(s.locations[s.seen as int]),
                                ),
                                text: match found {
                                    Ok(t) => Some(t),
                                    Err(_) => None,
                                },
                            },
                        ),
                        seen: s.seen + 1,
                        ..s
                    },
                );
            },
            _ => {},
        }
    }
}

/// Whether a session leaves the files alone: its command changes none, and no
/// file is about to be written.
pub open spec fn harmless(s: SessionView) -> bool {
    &&& !edits_files(s.command)
    &&& s.stage != Stage::ReadAgain
    &&& s.stage != Stage::Write
}

/// A session that is not told to apply a rename never writes: it begins harmless,
/// and stays so at every step.
pub proof fn lemma_preview_never_writes(s: SessionView, e: EventView)
    requires
        harmless(s),
    ensures
        harmless(step_of(s, e).state),
        !(step_of(s, e).action is Write),
{
    lemma_lifecycle(s, e);
}

/// Every session begins harmless, unless it is to apply a rename.
pub proof fn lemma_begins_harmless(
    workspace: Seq<char>,
    server_cmd: Seq<char>,
    timeout: nat,
    command: CommandView,
)
    ensures
        harmless(first_state(workspace, server_cmd, timeout, command)) == !edits_files(command),
{
}

/// What is written to a file is the text that was just read from it with its
/// edits applied, and nothing else.
pub proof fn lemma_writes_are_edits(s: SessionView, e: EventView)
    requires
        step_of(s, e).action is Write,
    ensures
        ({
            let (uri, edits) = s.files[s.written as int];
            &&& s.written < s.files.len()
            &&& match e {
                EventView::Content(Ok(text)) => {
                    &&& applicable(text, edits)
                    &&& step_of(s, e).action == (ActionView::Write {
                        path: path_of(uri),
                        text: decode_utf8(edited(text, edits)),
                    })
                },
                _ => false,
            }
        }),
{
    lemma_lifecycle(s, e);
    reveal(took_again);
}

/// A result is printed only at the end, when the server was told to go, and it is
/// the one that the command's work has left.
pub proof fn lemma_result_comes_last(s: SessionView, e: EventView)
    requires
        step_of(s, e).action is Finish,
    ensures
        s.stage == Stage::Exit,
        step_of(s, e).action == ActionView::Finish(s.output),
        step_of(s, e).state.stage == Stage::Ended,
{
    lemma_lifecycle(s, e);
}

/// A session that has ended does nothing more.
pub proof fn lemma_the_end(s: SessionView, e: EventView)
    requires
        s.stage == Stage::Ended,
    ensures
        step_of(s, e).state == s,
        step_of(s, e).action == ActionView::Abort,
{
}

/// Stopping the server holds nothing up. Whatever ends the wait for its answer, an
/// error, silence or the end of the stream, it is told to go next; and whether or
/// not it could be told, the result follows.
pub proof fn lemma_shutdown_goes_on(s: SessionView, e: EventView)
    ensures
        s.stage == Stage::Shutdown && s.phase == Phase::Waiting ==> match e {
            EventView::Incoming(i) => match waited(s.client, s.id, i).1 {
                WaitedView::Done(_) => step_of(s, e).state.stage == Stage::Exit && step_of(
                    s,
                    e,
                ).action == ActionView::Send(
                    message_bytes(notification_json("exit"@, JsonView::Null)),
                ),
                _ => step_of(s, e).state.stage == Stage::Shutdown,
            },
            _ => true,
        },
        s.stage == Stage::Exit ==> match e {
            EventView::Sent | EventView::SendFailed(_) => step_of(s, e).action
                == ActionView::Finish(s.output),
            _ => true,
        },
{
    reveal(exchanged);
    reveal(replied);
}

} // verus!
