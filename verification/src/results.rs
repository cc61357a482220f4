//! What results tell a caller: every statement here reads a result member by member,
//! as a caller does, and ties it to what the server said and to the files.

use vstd::prelude::*;

use crate::error::{error_json, usage_json, ToolErrorView};
use crate::json::{at, get, JsonView, Num};
use crate::order::text_less;
use crate::path::shown;
use crate::render::{
    diagnostic_json, diagnostics_json, lemma_references_by_place, lemma_references_in_order,
    reference_at, reference_json, references_at, references_json, related_json, rename_json, ReferenceView, RenameRequestView,
    SourceView,
};
use crate::summary::RowView;
use crate::text::{lines_of, trim_end};
use crate::uri::{decodable, path_of};

verus! {

/// A count, as a result holds it.
pub open spec fn counted(j: JsonView, n: int) -> bool {
    j == JsonView::Num(Num::Unsigned(n as u64))
}

/// Whether a location, of whatever message, starts at a line of a document.
pub open spec fn starts_at(loc: JsonView, uri: Seq<char>, line: u64) -> bool {
    &&& at(loc, "uri"@) == JsonView::Text(uri)
    &&& at(at(at(loc, "range"@), "start"@), "line"@) == JsonView::Num(Num::Unsigned(line))
}

/// Whether that text was read from a path, and before anything else was.
pub open spec fn was_read_as(sources: Seq<SourceView>, path: Seq<char>, content: Seq<char>) -> bool {
    exists|i: int|
        0 <= i < sources.len() && (#[trigger] sources[i]).path == path && sources[i].text == Some(
            content,
        ) && forall|j: int| 0 <= j < i ==> (#[trigger] sources[j]).path != path
}

/// A line of a text, as it is shown: without the white space at its end, and empty
/// where the text does not reach that far.
pub open spec fn shows_line(shown_text: Seq<char>, content: Seq<char>, line: int) -> bool {
    if 0 <= line < lines_of(content).len() {
        shown_text == trim_end(lines_of(content)[line])
    } else {
        shown_text.len() == 0
    }
}

proof fn lemma_content(sources: Seq<SourceView>, path: Seq<char>, content: Seq<char>)
    requires
        was_read_as(sources, path, content),
    ensures
        crate::render::content_of(sources, path) == content,
    decreases sources.len(),
{
    let i = choose|i: int|
        0 <= i < sources.len() && (#[trigger] sources[i]).path == path && sources[i].text == Some(
            content,
        ) && forall|j: int| 0 <= j < i ==> (#[trigger] sources[j]).path != path;
    if i > 0 {
        let rest = sources.drop_first();
        assert(sources[0].path != path);
        assert(rest[i - 1] == sources[i]);
        assert forall|j: int| 0 <= j < i - 1 implies (#[trigger] rest[j]).path != path by {
            assert(rest[j] == sources[j + 1]);
        }
        assert(was_read_as(rest, path, content));
        lemma_content(rest, path, content);
    }
}

/// A reference says where its location starts and what stands there: the file that
/// the location's URI names, its line, its column, and the text of that very line.
pub proof fn lemma_reference_shows_its_line(
    workspace: Seq<char>,
    sources: Seq<SourceView>,
    loc: JsonView,
    uri: Seq<char>,
    line: u64,
    character: u64,
    content: Seq<char>,
)
    requires
        starts_at(loc, uri, line),
        at(at(at(loc, "range"@), "start"@), "character"@) == JsonView::Num(
            Num::Unsigned(character),
        ),
        was_read_as(sources, path_of(uri), content),
    ensures
        ({
            let r = reference_at(workspace, sources, loc);
            &&& r.file == shown(workspace, path_of(uri))
            &&& r.line == line
            &&& r.character == character
            &&& line < lines_of(content).len() ==> r.text == trim_end(
                lines_of(content)[line as int],
            )
            &&& line >= lines_of(content).len() ==> r.text.len() == 0
        }),
{
    lemma_content(sources, path_of(uri), content);
}

/// Whether an item of a result stands for a line of a file.
pub open spec fn item_shows(item: JsonView, file: Seq<char>, line: u64, content: Seq<char>) -> bool {
    &&& at(item, "file"@) == JsonView::Text(file)
    &&& line < u64::MAX ==> counted(at(item, "line"@), line + 1)
    &&& match at(item, "text"@) {
        JsonView::Text(t) => shows_line(t, content, line as int),
        _ => false,
    }
}

/// A reference as it is printed: its line counted from one.
proof fn lemma_reference_printed(
    workspace: Seq<char>,
    sources: Seq<SourceView>,
    loc: JsonView,
    uri: Seq<char>,
    line: u64,
    content: Seq<char>,
)
    requires
        starts_at(loc, uri, line),
        was_read_as(sources, path_of(uri), content),
    ensures
        item_shows(
            reference_json(reference_at(workspace, sources, loc)),
            shown(workspace, path_of(uri)),
            line,
            content,
        ),
{
    lemma_content(sources, path_of(uri), content);
    reveal_strlit("file");
    reveal_strlit("line");
    reveal_strlit("text");
    assert("file"@.len() == 4);
    assert("line"@.len() == 4);
    assert("text"@.len() == 4);
    assert("file"@[0] == 'f' && "line"@[0] == 'l' && "text"@[0] == 't');
}

/// Every location that the server named is in the result, under its file, with its
/// line counted from one and the text of that line; and the result holds as many
/// references as it counts, which is as many as there are locations.
pub proof fn lemma_every_location_is_printed(
    workspace: Seq<char>,
    file: Seq<char>,
    target: Seq<char>,
    at_line: nat,
    from_symbol: bool,
    raw: bool,
    sources: Seq<SourceView>,
    locations: Seq<JsonView>,
)
    ensures
        ({
            let result = references_json(
                workspace,
                file,
                target,
                at_line,
                from_symbol,
                raw,
                sources,
                locations,
            );
            &&& counted(at(result, "count"@), locations.len() as int)
            &&& match at(result, "references"@) {
                JsonView::Array(items) => {
                    &&& items.len() == locations.len()
                    &&& forall|k: int, uri: Seq<char>, line: u64, content: Seq<char>|
                        0 <= k < locations.len() && #[trigger] starts_at(locations[k], uri, line)
                            && #[trigger] was_read_as(sources, path_of(uri), content)
                            ==> exists|i: int|
                            0 <= i < items.len() && item_shows(
                                #[trigger] items[i],
                                shown(workspace, path_of(uri)),
                                line,
                                content,
                            )
                },
                _ => false,
            }
        }),
{
    let list = references_at(workspace, sources, locations);
    let made = locations.map_values(|l: JsonView| reference_at(workspace, sources, l));
    lemma_references_in_order(workspace, sources, locations);
    list.to_multiset_ensures();
    made.to_multiset_ensures();
    assert(list.len() == locations.len());
    let items = list.map_values(|r: ReferenceView| reference_json(r));
    assert forall|k: int, uri: Seq<char>, line: u64, content: Seq<char>|
        0 <= k < locations.len() && #[trigger] starts_at(locations[k], uri, line)
            && #[trigger] was_read_as(sources, path_of(uri), content) implies exists|i: int|
        0 <= i < items.len() && item_shows(
            #[trigger] items[i],
            shown(workspace, path_of(uri)),
            line,
            content,
        ) by {
        lemma_reference_printed(workspace, sources, locations[k], uri, line, content);
        assert(made[k] == reference_at(workspace, sources, locations[k]));
        assert(made.contains(made[k]));
        assert(made.to_multiset().contains(made[k]));
        assert(list.contains(made[k]));
        let i = choose|i: int| 0 <= i < list.len() && list[i] == made[k];
        assert(items[i] == reference_json(made[k]));
    }
    lemma_references_members();
}

/// Whether a result says where its target was found: in the file as the caller named
/// it, at its line counted from one, and whether it was looked for by name.
pub open spec fn says_where(result: JsonView, file: Seq<char>, line: nat, from_symbol: bool) -> bool {
    let r = at(result, "resolved"@);
    &&& at(r, "file"@) == JsonView::Text(file)
    &&& counted(at(r, "line"@), line as int + 1)
    &&& from_symbol ==> at(r, "from"@) == JsonView::Text("symbol"@)
    &&& !from_symbol ==> at(r, "from"@) == JsonView::Text("position"@)
}

/// The names of a references result are different names.
proof fn lemma_references_members()
    ensures
        "file"@ != "target"@ && "file"@ != "resolved"@ && "file"@ != "count"@ && "file"@
            != "references"@ && "file"@ != "locations"@,
        "target"@ != "resolved"@ && "target"@ != "count"@ && "target"@ != "references"@
            && "target"@ != "locations"@,
        "resolved"@ != "count"@ && "resolved"@ != "references"@ && "resolved"@ != "locations"@,
        "count"@ != "references"@ && "count"@ != "locations"@,
        "references"@ != "locations"@,
        "file"@ != "line"@ && "file"@ != "from"@ && "line"@ != "from"@,
{
    reveal_strlit("file");
    reveal_strlit("line");
    reveal_strlit("from");
    reveal_strlit("target");
    reveal_strlit("resolved");
    reveal_strlit("count");
    reveal_strlit("references");
    reveal_strlit("locations");
    assert("file"@.len() == 4);
    assert("line"@.len() == 4);
    assert("from"@.len() == 4);
    assert("target"@.len() == 6);
    assert("resolved"@.len() == 8);
    assert("count"@.len() == 5);
    assert("references"@.len() == 10);
    assert("locations"@.len() == 9);
    assert("file"@[1] == 'i' && "line"@[0] == 'l' && "from"@[1] == 'r' && "file"@[0] == 'f'
        && "from"@[0] == 'f');
}

/// A references result repeats what the caller asked for and says where it was found.
pub proof fn lemma_references_answer_the_request(
    workspace: Seq<char>,
    file: Seq<char>,
    target: Seq<char>,
    line: nat,
    from_symbol: bool,
    raw: bool,
    sources: Seq<SourceView>,
    locations: Seq<JsonView>,
)
    ensures
        ({
            let result = references_json(
                workspace,
                file,
                target,
                line,
                from_symbol,
                raw,
                sources,
                locations,
            );
            &&& at(result, "file"@) == JsonView::Text(file)
            &&& at(result, "target"@) == JsonView::Text(target)
            &&& says_where(result, file, line, from_symbol)
        }),
{
    lemma_references_members();
}

/// A place that a diagnostic points to is printed with its line counted from one and
/// with its file and message; what its columns are changes nothing.
pub proof fn lemma_related_place(workspace: Seq<char>, info: JsonView, uri: Seq<char>, line: u64)
    requires
        starts_at(at(info, "location"@), uri, line),
    ensures
        ({
            let r = related_json(workspace, info);
            &&& line < u64::MAX ==> counted(at(r, "line"@), line + 1)
            &&& decodable(uri) ==> at(r, "file"@) == JsonView::Text(shown(workspace, path_of(uri)))
            &&& !decodable(uri) ==> at(r, "file"@) == JsonView::Text(uri)
            &&& at(r, "message"@) == at(info, "message"@)
        }),
{
    reveal_strlit("file");
    reveal_strlit("line");
    reveal_strlit("message");
    assert("file"@.len() == 4);
    assert("line"@.len() == 4);
    assert("message"@.len() == 7);
    assert("file"@[0] == 'f' && "line"@[0] == 'l');
}

/// Two places that agree in document, line and message are printed alike, wherever on
/// the line they start and wherever they end.
pub proof fn lemma_related_ignores_columns(workspace: Seq<char>, a: JsonView, b: JsonView)
    requires
        at(at(a, "location"@), "uri"@) == at(at(b, "location"@), "uri"@),
        at(at(at(at(a, "location"@), "range"@), "start"@), "line"@) == at(
            at(at(at(b, "location"@), "range"@), "start"@),
            "line"@,
        ),
        at(a, "message"@) == at(b, "message"@),
    ensures
        related_json(workspace, a) == related_json(workspace, b),
{
}

/// The names of a printed diagnostic are different names.
proof fn lemma_diagnostic_members()
    ensures
        "severity"@ != "line"@ && "severity"@ != "code"@ && "severity"@ != "source"@
            && "severity"@ != "message"@ && "severity"@ != "text"@ && "severity"@ != "related"@,
        "line"@ != "code"@ && "line"@ != "source"@ && "line"@ != "message"@ && "line"@ != "text"@
            && "line"@ != "related"@,
        "code"@ != "source"@ && "code"@ != "message"@ && "code"@ != "text"@ && "code"@
            != "related"@,
        "source"@ != "message"@ && "source"@ != "text"@ && "source"@ != "related"@,
        "message"@ != "text"@ && "message"@ != "related"@,
        "text"@ != "related"@,
{
    reveal_strlit("severity");
    reveal_strlit("line");
    reveal_strlit("code");
    reveal_strlit("source");
    reveal_strlit("message");
    reveal_strlit("text");
    reveal_strlit("related");
    assert("severity"@.len() == 8);
    assert("line"@.len() == 4);
    assert("code"@.len() == 4);
    assert("source"@.len() == 6);
    assert("message"@.len() == 7);
    assert("text"@.len() == 4);
    assert("related"@.len() == 7);
    assert("line"@[0] == 'l' && "code"@[0] == 'c' && "text"@[0] == 't');
    assert("message"@[0] == 'm' && "related"@[0] == 'r');
}

/// Whether a diagnostic begins on a line.
pub open spec fn begins_on(d: JsonView, line: u64) -> bool {
    at(at(at(d, "range"@), "start"@), "line"@) == JsonView::Num(Num::Unsigned(line))
}

/// Whether a printed diagnostic tells what the server said of a line of the file.
pub open spec fn tells(item: JsonView, workspace: Seq<char>, content: Seq<char>, d: JsonView) -> bool {
    &&& at(item, "message"@) == at(d, "message"@)
    &&& at(item, "code"@) == at(d, "code"@)
    &&& at(item, "source"@) == at(d, "source"@)
    &&& at(d, "severity"@) == JsonView::Num(Num::Unsigned(1)) ==> at(item, "severity"@)
        == JsonView::Text("error"@)
    &&& at(d, "severity"@) == JsonView::Num(Num::Unsigned(2)) ==> at(item, "severity"@)
        == JsonView::Text("warning"@)
    &&& at(d, "severity"@) == JsonView::Num(Num::Unsigned(3)) ==> at(item, "severity"@)
        == JsonView::Text("information"@)
    &&& at(d, "severity"@) == JsonView::Num(Num::Unsigned(4)) ==> at(item, "severity"@)
        == JsonView::Text("hint"@)
    &&& at(d, "severity"@) == JsonView::Null ==> at(item, "severity"@) == JsonView::Text(
        "unknown"@,
    )
    &&& forall|n: u64| #[trigger]
        begins_on(d, n) ==> (n < u64::MAX ==> counted(at(item, "line"@), n + 1)) && match at(item, "text"@) {
            JsonView::Text(t) => shows_line(t, content, n as int),
            _ => false,
        }
    &&& match (at(item, "related"@), at(d, "relatedInformation"@)) {
        (JsonView::Array(printed), JsonView::Array(infos)) => printed.len() == infos.len()
            && forall|k: int|
            0 <= k < infos.len() ==> #[trigger] printed[k] == related_json(workspace, infos[k]),
        (JsonView::Array(printed), _) => printed.len() == 0,
        _ => false,
    }
}

/// A printed diagnostic keeps the server's message, code and source, says its severity
/// in a word, counts its line from one and shows that line.
pub proof fn lemma_diagnostic_tells(workspace: Seq<char>, content: Seq<char>, d: JsonView)
    ensures
        tells(diagnostic_json(workspace, content, d), workspace, content, d),
{
    lemma_diagnostic_members();
}

/// A check's result names the file, and holds and counts every diagnostic of the list
/// that the server gave, in the server's order.
pub proof fn lemma_every_diagnostic_is_printed(
    workspace: Seq<char>,
    file: Seq<char>,
    content: Seq<char>,
    raw: bool,
    list: Seq<JsonView>,
)
    ensures
        ({
            let result = diagnostics_json(workspace, file, content, raw, JsonView::Array(list));
            &&& at(result, "file"@) == JsonView::Text(file)
            &&& counted(at(result, "count"@), list.len() as int)
            &&& match at(result, "diagnostics"@) {
                JsonView::Array(items) => items.len() == list.len() && forall|k: int|
                    0 <= k < list.len() ==> tells(
                        #[trigger] items[k],
                        workspace,
                        content,
                        list[k],
                    ),
                _ => false,
            }
        }),
{
    reveal_strlit("file");
    reveal_strlit("count");
    reveal_strlit("diagnostics");
    reveal_strlit("raw");
    assert("file"@.len() == 4);
    assert("count"@.len() == 5);
    assert("diagnostics"@.len() == 11);
    assert("raw"@.len() == 3);
    let items = list.map_values(|d: JsonView| diagnostic_json(workspace, content, d));
    assert forall|k: int| 0 <= k < list.len() implies tells(
        #[trigger] items[k],
        workspace,
        content,
        list[k],
    ) by {
        lemma_diagnostic_tells(workspace, content, list[k]);
    }
}

/// The names of a rename's result are different names.
proof fn lemma_rename_members()
    ensures
        "status"@ != "target"@ && "status"@ != "renamed_to"@ && "status"@ != "resolved"@
            && "status"@ != "scope"@ && "status"@ != "changes"@ && "status"@ != "edit"@,
        "target"@ != "renamed_to"@ && "target"@ != "resolved"@ && "target"@ != "scope"@
            && "target"@ != "changes"@ && "target"@ != "edit"@,
        "renamed_to"@ != "resolved"@ && "renamed_to"@ != "scope"@ && "renamed_to"@ != "changes"@
            && "renamed_to"@ != "edit"@,
        "resolved"@ != "scope"@ && "resolved"@ != "changes"@ && "resolved"@ != "edit"@,
        "scope"@ != "changes"@ && "scope"@ != "edit"@,
        "changes"@ != "edit"@,
        "files"@ != "edits"@,
        "file"@ != "line"@ && "file"@ != "before"@ && "file"@ != "after"@,
        "line"@ != "before"@ && "line"@ != "after"@,
        "before"@ != "after"@,
{
    reveal_strlit("status");
    reveal_strlit("target");
    reveal_strlit("renamed_to");
    reveal_strlit("resolved");
    reveal_strlit("scope");
    reveal_strlit("changes");
    reveal_strlit("edit");
    reveal_strlit("files");
    reveal_strlit("edits");
    reveal_strlit("file");
    reveal_strlit("line");
    reveal_strlit("before");
    reveal_strlit("after");
    assert("status"@.len() == 6);
    assert("target"@.len() == 6);
    assert("renamed_to"@.len() == 10);
    assert("resolved"@.len() == 8);
    assert("scope"@.len() == 5);
    assert("changes"@.len() == 7);
    assert("edit"@.len() == 4);
    assert("files"@.len() == 5);
    assert("edits"@.len() == 5);
    assert("file"@.len() == 4);
    assert("line"@.len() == 4);
    assert("before"@.len() == 6);
    assert("after"@.len() == 5);
    assert("status"@[0] == 's' && "target"@[0] == 't');
    assert("files"@[0] == 'f' && "edits"@[0] == 'e');
    assert("file"@[0] == 'f' && "line"@[0] == 'l');
}

/// Whether a printed change is that of a row: the file, the line counted from one, its
/// text before, and its text after, which is null where the line is gone.
pub open spec fn change_shows(item: JsonView, workspace: Seq<char>, row: RowView) -> bool {
    &&& at(item, "file"@) == JsonView::Text(shown(workspace, row.path))
    &&& counted(at(item, "line"@), row.line as int + 1)
    &&& at(item, "before"@) == JsonView::Text(row.before)
    &&& match row.after {
        Some(a) => at(item, "after"@) == JsonView::Text(a),
        None => get(item, "after"@) == Some(JsonView::Null),
    }
}

/// A rename's result says whether files were written, repeats what the caller asked
/// for, says where the target was found and how far the rename reaches, and shows
/// every changed line in order.
pub proof fn lemma_rename_answers_the_request(
    workspace: Seq<char>,
    q: RenameRequestView,
    line: nat,
    from_symbol: bool,
    files: nat,
    edits: nat,
    rows: Seq<RowView>,
    edit: JsonView,
)
    ensures
        ({
            let result = rename_json(workspace, q, line, from_symbol, files, edits, rows, edit);
            &&& q.apply ==> at(result, "status"@) == JsonView::Text("applied"@)
            &&& !q.apply ==> at(result, "status"@) == JsonView::Text("preview"@)
            &&& at(result, "target"@) == JsonView::Text(q.target)
            &&& at(result, "renamed_to"@) == JsonView::Text(q.new_name)
            &&& says_where(result, q.file, line, from_symbol)
            &&& counted(at(at(result, "scope"@), "files"@), files as int)
            &&& counted(at(at(result, "scope"@), "edits"@), edits as int)
            &&& match at(result, "changes"@) {
                JsonView::Array(items) => items.len() == rows.len() && forall|k: int|
                    0 <= k < rows.len() ==> change_shows(#[trigger] items[k], workspace, rows[k]),
                _ => false,
            }
        }),
{
    lemma_rename_members();
    lemma_references_members();
}

/// A failure says why, and hands over what belongs to it where there is something.
pub proof fn lemma_errors_say_why(e: ToolErrorView, usage: Seq<char>)
    ensures
        at(at(error_json(e), "error"@), "message"@) == JsonView::Text(e.message),
        get(at(error_json(e), "error"@), "data"@) == e.data,
        at(at(usage_json(e.message, usage), "error"@), "message"@) == JsonView::Text(e.message),
        at(at(usage_json(e.message, usage), "error"@), "usage"@) == JsonView::Text(usage),
{
    reveal_strlit("message");
    reveal_strlit("data");
    reveal_strlit("usage");
    assert("message"@.len() == 7);
    assert("data"@.len() == 4);
    assert("usage"@.len() == 5);
}

/// The references are printed by file, and those of one file from its top to its bottom.
pub proof fn lemma_references_printed_in_order(
    workspace: Seq<char>,
    file: Seq<char>,
    target: Seq<char>,
    at_line: nat,
    from_symbol: bool,
    raw: bool,
    sources: Seq<SourceView>,
    locations: Seq<JsonView>,
    i: int,
    j: int,
)
    requires
        0 <= i < j < locations.len(),
    ensures
        match at(
            references_json(
                workspace,
                file,
                target,
                at_line,
                from_symbol,
                raw,
                sources,
                locations,
            ),
            "references"@,
        ) {
            JsonView::Array(items) => match (
                at(items[i], "file"@),
                at(items[j], "file"@),
                at(items[i], "line"@),
                at(items[j], "line"@),
            ) {
                (
                    JsonView::Text(a),
                    JsonView::Text(b),
                    JsonView::Num(Num::Unsigned(m)),
                    JsonView::Num(Num::Unsigned(n)),
                ) => text_less(a, b) || a == b && m <= n,
                _ => false,
            },
            _ => false,
        },
{
    let list = references_at(workspace, sources, locations);
    let made = locations.map_values(|l: JsonView| reference_at(workspace, sources, l));
    lemma_references_in_order(workspace, sources, locations);
    list.to_multiset_ensures();
    made.to_multiset_ensures();
    lemma_references_by_place(workspace, sources, locations, i, j);
    lemma_references_members();
    lemma_reference_members(list[i]);
    lemma_reference_members(list[j]);
}

proof fn lemma_reference_members(r: ReferenceView)
    ensures
        at(reference_json(r), "file"@) == JsonView::Text(r.file),
        at(reference_json(r), "line"@) == JsonView::Num(
            Num::Unsigned(crate::render::from_one(r.line)),
        ),
{
    reveal_strlit("file");
    reveal_strlit("line");
    reveal_strlit("text");
    assert("file"@[0] == 'f' && "line"@[0] == 'l' && "text"@[0] == 't');
}

/// What the server gives in place of a list of diagnostics is shown as it is, and counts
/// as none.
pub proof fn lemma_no_list_of_diagnostics(
    workspace: Seq<char>,
    file: Seq<char>,
    content: Seq<char>,
    raw: bool,
    other: JsonView,
)
    requires
        !(other is Array),
    ensures
        ({
            let result = diagnostics_json(workspace, file, content, raw, other);
            &&& at(result, "file"@) == JsonView::Text(file)
            &&& counted(at(result, "count"@), 0)
            &&& at(result, "diagnostics"@) == other
        }),
{
    reveal_strlit("file");
    reveal_strlit("count");
    reveal_strlit("diagnostics");
    reveal_strlit("raw");
    assert("file"@.len() == 4);
    assert("count"@.len() == 5);
    assert("diagnostics"@.len() == 11);
    assert("raw"@.len() == 3);
}

} // verus!
