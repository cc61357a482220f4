//! Results as a caller reads them: files relative to the workspace, lines counted
//! from one with their text, and no protocol coordinates.

use vstd::prelude::*;

use crate::client::{count_json, no_members};
use crate::json::{
    array, as_array, as_str, as_u64, at, copy_of, member, number_in, opt_view, text, text_in,
    unsigned, views, Json, JsonView, Members, Num,
};
use crate::order::{
    comes_before, in_order, is_order, lemma_sorted_by, lemma_text_irreflexive, lemma_text_total,
    lemma_text_transitive, slotted, sorted_by, text_less,
};
use crate::path::{show_path, shown};
use crate::summary::{row_views, rows_numbered, Row, RowView, Summary};
use crate::text::{chars_of, lines, lines_of, owned, rows, same_text, trim_end, trim_end_text};
use crate::uri::{decodable, path_of, try_uri_to_path};

verus! {

/// Where a symbol was found: by its name, or at a position that was given.
pub open spec fn origin(from_symbol: bool) -> Seq<char> {
    if from_symbol {
        "symbol"@
    } else {
        "position"@
    }
}

fn origin_text(from_symbol: bool) -> (r: Json)
    ensures
        r@ == JsonView::Text(origin(from_symbol)),
{
    if from_symbol {
        text("symbol")
    } else {
        text("position")
    }
}

/// Where a target was found, its line counted from one.
pub open spec fn resolved_json(file: Seq<char>, line: nat, from_symbol: bool) -> JsonView {
    JsonView::Object(
        no_members().insert("file"@, JsonView::Text(file)).insert("line"@, count_json(line + 1)).insert(
            "from"@,
            JsonView::Text(origin(from_symbol)),
        ),
    )
}

fn resolved(file: &str, line: usize, from_symbol: bool) -> (r: Json)
    requires
        line < usize::MAX,
    ensures
        r@ == resolved_json(file@, line as nat, from_symbol),
{
    Members::new().with("file", text(file)).with("line", unsigned((line + 1) as u64)).with(
        "from",
        origin_text(from_symbol),
    ).object()
}

/// What a caller asked a rename for.
#[derive(Debug)]
pub struct RenameRequest {
    pub file: String,
    pub target: String,
    pub new_name: String,
    pub apply: bool,
    pub raw: bool,
}

/// What a caller asked a rename for.
pub struct RenameRequestView {
    pub file: Seq<char>,
    pub target: Seq<char>,
    pub new_name: Seq<char>,
    pub apply: bool,
    pub raw: bool,
}

impl View for RenameRequest {
    type V = RenameRequestView;

    open spec fn view(&self) -> RenameRequestView {
        RenameRequestView {
            file: self.file@,
            target: self.target@,
            new_name: self.new_name@,
            apply: self.apply,
            raw: self.raw,
        }
    }
}

/// One changed line; its text after is null where the line is gone.
pub open spec fn change_json(workspace: Seq<char>, r: RowView) -> JsonView {
    JsonView::Object(
        no_members().insert("file"@, JsonView::Text(shown(workspace, r.path))).insert(
            "line"@,
            count_json(r.line + 1),
        ).insert("before"@, JsonView::Text(r.before)).insert(
            "after"@,
            match r.after {
                Some(a) => JsonView::Text(a),
                None => JsonView::Null,
            },
        ),
    )
}

/// The changed lines.
pub open spec fn changes_json(workspace: Seq<char>, rows: Seq<RowView>) -> Seq<JsonView> {
    rows.map_values(|r: RowView| change_json(workspace, r))
}

/// The members of a rename's result.
pub open spec fn rename_members(
    workspace: Seq<char>,
    q: RenameRequestView,
    line: nat,
    from_symbol: bool,
    files: nat,
    edits: nat,
    rows: Seq<RowView>,
) -> Map<Seq<char>, JsonView> {
    no_members().insert(
        "status"@,
        JsonView::Text(
            if q.apply {
                "applied"@
            } else {
                "preview"@
            },
        ),
    ).insert("target"@, JsonView::Text(q.target)).insert(
        "renamed_to"@,
        JsonView::Text(q.new_name),
    ).insert("resolved"@, resolved_json(q.file, line, from_symbol)).insert(
        "scope"@,
        JsonView::Object(
            no_members().insert("files"@, count_json(files)).insert("edits"@, count_json(edits)),
        ),
    ).insert("changes"@, JsonView::Array(changes_json(workspace, rows)))
}

/// A rename's result: whether it was made, its scope and a row for each changed
/// line. The server's edit is in it only where the caller asked for it.
pub open spec fn rename_json(
    workspace: Seq<char>,
    q: RenameRequestView,
    line: nat,
    from_symbol: bool,
    files: nat,
    edits: nat,
    rows: Seq<RowView>,
    edit: JsonView,
) -> JsonView {
    let m = rename_members(workspace, q, line, from_symbol, files, edits, rows);
    JsonView::Object(
        if q.raw {
            m.insert("edit"@, edit)
        } else {
            m
        },
    )
}

fn change(workspace: &str, r: &Row) -> (j: Json)
    requires
        r.line < usize::MAX,
    ensures
        j@ == change_json(workspace@, r@),
{
    let file = show_path(workspace, r.path.as_str());
    let after = match &r.after {
        Some(a) => text(a.as_str()),
        None => Json::Null,
    };
    Members::new().with("file", text(file.as_str())).with("line", unsigned((r.line + 1) as u64)).with(
        "before",
        text(r.before.as_str()),
    ).with("after", after).object()
}

fn changes(workspace: &str, rows: &Vec<Row>) -> (r: Json)
    requires
        rows_numbered(rows@),
    ensures
        r@ == JsonView::Array(changes_json(workspace@, row_views(rows@))),
{
    let ghost all = changes_json(workspace@, row_views(rows@));
    let mut out: Vec<Json> = Vec::new();
    let mut i: usize = 0;
    while i < rows.len()
        invariant
            i <= rows@.len(),
            rows_numbered(rows@),
            all == changes_json(workspace@, row_views(rows@)),
            views(out@) == all.take(i as int),
        decreases rows@.len() - i,
    {
        let j = change(workspace, &rows[i]);
        let ghost before = out@;
        out.push(j);
        i += 1;
        assert(views(out@) =~= views(before).push(j@));
        assert(views(out@) =~= all.take(i as int));
    }
    assert(views(out@) =~= all);
    array(out)
}

/// Renders what a rename changes.
pub fn render_rename_result(
    workspace: &str,
    request: &RenameRequest,
    line: usize,
    from_symbol: bool,
    summary: &Summary,
    edit: &Json,
) -> (r: Json)
    requires
        line < usize::MAX,
        rows_numbered(summary.rows@),
    ensures
        r@ == rename_json(
            workspace@,
            request@,
            line as nat,
            from_symbol,
            summary.files as nat,
            summary.edits as nat,
            row_views(summary.rows@),
            edit@,
        ),
{
    let status = if request.apply {
        text("applied")
    } else {
        text("preview")
    };
    let scope = Members::new().with("files", unsigned(summary.files as u64)).with(
        "edits",
        unsigned(summary.edits),
    ).object();
    let mut out = Members::new().with("status", status).with(
        "target",
        text(request.target.as_str()),
    ).with("renamed_to", text(request.new_name.as_str())).with(
        "resolved",
        resolved(request.file.as_str(), line, from_symbol),
    ).with("scope", scope).with("changes", changes(workspace, &summary.rows));
    if request.raw {
        out.put("edit", edit.duplicate());
    }
    out.object()
}

// ---------------------------------------------------------------------------
// References
// ---------------------------------------------------------------------------

/// A line number counted from one. The last number that there is stays as it is.
pub open spec fn from_one(n: u64) -> u64 {
    if n < u64::MAX {
        (n + 1) as u64
    } else {
        n
    }
}

fn counted_from_one(n: u64) -> (r: u64)
    ensures
        r == from_one(n),
{
    if n < u64::MAX {
        n + 1
    } else {
        n
    }
}

/// The URI of a location; empty where it has none.
pub open spec fn location_uri(loc: JsonView) -> Seq<char> {
    match as_str(at(loc, "uri"@)) {
        Some(u) => u,
        None => Seq::empty(),
    }
}

/// A number where a value is one, zero otherwise.
pub open spec fn number_or_zero(j: JsonView) -> u64 {
    match as_u64(j) {
        Some(n) => n,
        None => 0,
    }
}

/// Where a location starts.
pub open spec fn location_start(loc: JsonView) -> JsonView {
    at(at(loc, "range"@), "start"@)
}

/// A line of a text without the white space at its end; empty where there is none.
pub open spec fn source_line(content: Seq<char>, line: u64) -> Seq<char> {
    if line < lines_of(content).len() {
        trim_end(lines_of(content)[line as int])
    } else {
        Seq::empty()
    }
}

/// A file that was read: its path, and its text unless it could not be read.
#[derive(Debug)]
pub struct Source {
    pub path: String,
    pub text: Option<String>,
}

/// A file that was read.
pub struct SourceView {
    pub path: Seq<char>,
    pub text: Option<Seq<char>>,
}

impl View for Source {
    type V = SourceView;

    open spec fn view(&self) -> SourceView {
        SourceView {
            path: self.path@,
            text: match self.text {
                Some(t) => Some(t@),
                None => None,
            },
        }
    }
}

/// What was read.
pub open spec fn source_views(sources: Seq<Source>) -> Seq<SourceView> {
    sources.map_values(|s: Source| s@)
}

/// The text that was read at a path; empty where none was.
pub open spec fn content_of(sources: Seq<SourceView>, path: Seq<char>) -> Seq<char>
    decreases sources.len(),
{
    if sources.len() == 0 {
        Seq::empty()
    } else if sources[0].path == path {
        match sources[0].text {
            Some(t) => t,
            None => Seq::empty(),
        }
    } else {
        content_of(sources.drop_first(), path)
    }
}

/// Whether a path has been read.
pub open spec fn has_source(sources: Seq<SourceView>, path: Seq<char>) -> bool {
    exists|i: int| 0 <= i < sources.len() && (#[trigger] sources[i]).path == path
}

/// A reference: its file as it is shown, its place, and the text of its line.
#[derive(Debug)]
pub struct Reference {
    pub file: String,
    pub line: u64,
    pub character: u64,
    pub text: String,
}

/// A reference.
pub struct ReferenceView {
    pub file: Seq<char>,
    pub line: u64,
    pub character: u64,
    pub text: Seq<char>,
}

impl View for Reference {
    type V = ReferenceView;

    open spec fn view(&self) -> ReferenceView {
        ReferenceView {
            file: self.file@,
            line: self.line,
            character: self.character,
            text: self.text@,
        }
    }
}

/// What a list of references says.
pub open spec fn reference_views(list: Seq<Reference>) -> Seq<ReferenceView> {
    list.map_values(|r: Reference| r@)
}

/// The reference at a location.
pub open spec fn reference_at(
    workspace: Seq<char>,
    sources: Seq<SourceView>,
    loc: JsonView,
) -> ReferenceView {
    let path = path_of(location_uri(loc));
    let line = number_or_zero(at(location_start(loc), "line"@));
    ReferenceView {
        file: shown(workspace, path),
        line,
        character: number_or_zero(at(location_start(loc), "character"@)),
        text: source_line(content_of(sources, path), line),
    }
}

/// Whether one reference comes before another: by file, by line, by column.
pub open spec fn reference_less(a: ReferenceView, b: ReferenceView) -> bool {
    ||| text_less(a.file, b.file)
    ||| a.file == b.file && a.line < b.line
    ||| a.file == b.file && a.line == b.line && a.character < b.character
}

/// The order of references.
pub open spec fn reference_order() -> spec_fn(ReferenceView, ReferenceView) -> bool {
    |a: ReferenceView, b: ReferenceView| reference_less(a, b)
}

/// The references at the locations, in order.
pub open spec fn references_at(
    workspace: Seq<char>,
    sources: Seq<SourceView>,
    locations: Seq<JsonView>,
) -> Seq<ReferenceView> {
    sorted_by(
        locations.map_values(|l: JsonView| reference_at(workspace, sources, l)),
        reference_order(),
    )
}

/// Whether every location's URI can be decoded.
pub open spec fn locations_decodable(locations: Seq<JsonView>) -> bool {
    forall|i: int| 0 <= i < locations.len() ==> decodable(location_uri(#[trigger] locations[i]))
}

/// A reference as it is printed: no column.
pub open spec fn reference_json(r: ReferenceView) -> JsonView {
    JsonView::Object(
        no_members().insert("file"@, JsonView::Text(r.file)).insert(
            "line"@,
            JsonView::Num(Num::Unsigned(from_one(r.line))),
        ).insert("text"@, JsonView::Text(r.text)),
    )
}

/// The result of a search for references. The server's locations are in it only
/// where the caller asked for them.
pub open spec fn references_json(
    workspace: Seq<char>,
    file: Seq<char>,
    target: Seq<char>,
    line: nat,
    from_symbol: bool,
    raw: bool,
    sources: Seq<SourceView>,
    locations: Seq<JsonView>,
) -> JsonView {
    let list = references_at(workspace, sources, locations);
    let m = no_members().insert("file"@, JsonView::Text(file)).insert(
        "target"@,
        JsonView::Text(target),
    ).insert(
        "resolved"@,
        resolved_json(file, line, from_symbol),
    ).insert("count"@, count_json(list.len())).insert(
        "references"@,
        JsonView::Array(list.map_values(|r: ReferenceView| reference_json(r))),
    );
    JsonView::Object(
        if raw {
            m.insert("locations"@, JsonView::Array(locations))
        } else {
            m
        },
    )
}

/// The URI of a location; empty where it has none.
fn uri_text<'a>(loc: &'a Json) -> (r: &'a str)
    ensures
        r@ == location_uri(loc@),
{
    match text_in(loc.get("uri")) {
        Some(u) => u,
        None => {
            proof {
                reveal_strlit("");
                assert(""@ =~= Seq::empty());
            }
            ""
        },
    }
}

/// The path of a location; nothing where its URI cannot be decoded.
pub fn location_path(loc: &Json) -> (r: Option<String>)
    ensures
        r is Some <==> decodable(location_uri(loc@)),
        r matches Some(p) ==> p@ == path_of(location_uri(loc@)),
{
    try_uri_to_path(uri_text(loc))
}

fn zero_or(n: Option<u64>) -> (r: u64)
    ensures
        r == (match n {
            Some(x) => x,
            None => 0,
        }),
{
    match n {
        Some(x) => x,
        None => 0,
    }
}

/// A line of a text without the white space at its end.
fn line_of_source(content: &str, line: u64) -> (r: String)
    ensures
        r@ == source_line(content@, line),
{
    let chars = chars_of(content);
    let all = lines(&chars);
    assert(rows(all@).len() == all@.len());
    if line < all.len() as u64 {
        assert(rows(all@)[line as int] == all@[line as int]@);
        trim_end_text(&all[line as usize])
    } else {
        String::new()
    }
}

/// The text that was read at a path.
fn content_at<'a>(sources: &'a Vec<Source>, path: &str) -> (r: &'a str)
    ensures
        r@ == content_of(source_views(sources@), path@),
{
    let ghost all = source_views(sources@);
    let mut i: usize = 0;
    assert(all.skip(0) =~= all);
    while i < sources.len()
        invariant
            i <= sources@.len(),
            all == source_views(sources@),
            content_of(all.skip(i as int), path@) == content_of(all, path@),
        decreases sources@.len() - i,
    {
        assert(all.skip(i as int)[0] == sources@[i as int]@);
        if same_text(sources[i].path.as_str(), path) {
            return match &sources[i].text {
                Some(t) => t.as_str(),
                None => {
                    proof {
                        reveal_strlit("");
                        assert(""@ =~= Seq::empty());
                    }
                    ""
                },
            };
        }
        assert(all.skip(i as int).drop_first() =~= all.skip(i + 1));
        i += 1;
    }
    proof {
        reveal_strlit("");
        assert(""@ =~= Seq::empty());
        assert(all.skip(i as int) =~= Seq::empty());
    }
    ""
}

/// Whether a path has been read.
pub fn was_read(sources: &Vec<Source>, path: &str) -> (r: bool)
    ensures
        r == has_source(source_views(sources@), path@),
{
    let ghost all = source_views(sources@);
    let mut i: usize = 0;
    while i < sources.len()
        invariant
            i <= sources@.len(),
            all == source_views(sources@),
            forall|k: int| 0 <= k < i ==> (#[trigger] all[k]).path != path@,
        decreases sources@.len() - i,
    {
        assert(all[i as int] == sources@[i as int]@);
        if same_text(sources[i].path.as_str(), path) {
            assert(all[i as int].path == path@);
            return true;
        }
        i += 1;
    }
    false
}

/// Whether one reference comes before another.
fn reference_before(a: &Reference, b: &Reference) -> (r: bool)
    ensures
        r == reference_less(a@, b@),
{
    if comes_before(a.file.as_str(), b.file.as_str()) {
        return true;
    }
    same_text(a.file.as_str(), b.file.as_str()) && (a.line < b.line || (a.line == b.line
        && a.character < b.character))
}

/// Puts a reference in its place.
fn slot_reference(list: &mut Vec<Reference>, x: Reference)
    ensures
        reference_views(final(list)@) == slotted(
            reference_views(old(list)@),
            x@,
            reference_order(),
        ),
{
    let ghost before = list@;
    let ghost all = reference_views(before);
    let mut k: usize = list.len();
    let ghost mut moved: Seq<ReferenceView> = Seq::empty();
    assert(all.take(k as int) =~= all);
    while k > 0 && reference_before(&x, &list[k - 1])
        invariant
            list@ == before,
            all == reference_views(before),
            k <= before.len(),
            moved == all.skip(k as int),
            slotted(all, x@, reference_order()) == slotted(
                all.take(k as int),
                x@,
                reference_order(),
            ) + moved,
        decreases k,
    {
        proof {
            let part = all.take(k as int);
            assert(part.last() == before[k - 1]@);
            assert(part.drop_last() =~= all.take(k - 1));
            let now = all.skip(k - 1);
            assert(now =~= seq![part.last()] + moved);
            assert(slotted(part, x@, reference_order()) + moved =~= slotted(
                part.drop_last(),
                x@,
                reference_order(),
            ) + now);
            moved = now;
        }
        k -= 1;
    }
    let ghost part = all.take(k as int);
    proof {
        if k > 0 {
            assert(part.last() == before[k - 1]@);
        }
        assert(slotted(part, x@, reference_order()) == part.push(x@));
    }
    let ghost v = x@;
    list.insert(k, x);
    assert(reference_views(list@) =~= part.push(v) + moved);
}

/// Turns locations into references: files relative to the workspace and the text
/// of each line, so that the result reads without opening a file. Nothing where a
/// URI cannot be decoded.
pub fn render_locations(workspace: &str, sources: &Vec<Source>, locations: &Vec<Json>) -> (r: Option<
    Vec<Reference>,
>)
    ensures
        r is Some <==> locations_decodable(views(locations@)),
        r matches Some(list) ==> reference_views(list@) == references_at(
            workspace@,
            source_views(sources@),
            views(locations@),
        ),
{
    let ghost locs = views(locations@);
    let ghost all = locs.map_values(
        |l: JsonView| reference_at(workspace@, source_views(sources@), l),
    );
    let mut out: Vec<Reference> = Vec::new();
    let mut i: usize = 0;
    assert(reference_views(out@) =~= sorted_by(all.take(0), reference_order()));
    while i < locations.len()
        invariant
            i <= locations@.len(),
            locs == views(locations@),
            all == locs.map_values(
                |l: JsonView| reference_at(workspace@, source_views(sources@), l),
            ),
            forall|k: int| 0 <= k < i ==> decodable(location_uri(#[trigger] locs[k])),
            reference_views(out@) == sorted_by(all.take(i as int), reference_order()),
        decreases locations@.len() - i,
    {
        let loc: &Json = &locations[i];
        assert(locs[i as int] == loc@);
        let path = match location_path(loc) {
            Some(p) => p,
            None => return None,
        };
        let start = member(loc.get("range"), "start");
        let line: u64 = zero_or(number_in(member(start, "line")));
        let character: u64 = zero_or(number_in(member(start, "character")));
        let content = content_at(sources, path.as_str());
        let line_text = line_of_source(content, line);
        let x = Reference {
            file: show_path(workspace, path.as_str()),
            line,
            character,
            text: line_text,
        };
        proof {
            assert(x@ == reference_at(workspace@, source_views(sources@), loc@));
            let part = all.take(i + 1);
            assert(part.last() == x@);
            assert(part.drop_last() =~= all.take(i as int));
        }
        slot_reference(&mut out, x);
        i += 1;
    }
    assert(all.take(i as int) =~= all);
    Some(out)
}

fn reference(r: &Reference) -> (j: Json)
    ensures
        j@ == reference_json(r@),
{
    Members::new().with("file", text(r.file.as_str())).with(
        "line",
        unsigned(counted_from_one(r.line)),
    ).with("text", text(r.text.as_str())).object()
}

fn reference_list(list: &Vec<Reference>) -> (j: Json)
    ensures
        j@ == JsonView::Array(
            reference_views(list@).map_values(|r: ReferenceView| reference_json(r)),
        ),
{
    let ghost all = reference_views(list@).map_values(|r: ReferenceView| reference_json(r));
    let mut out: Vec<Json> = Vec::new();
    let mut i: usize = 0;
    while i < list.len()
        invariant
            i <= list@.len(),
            all == reference_views(list@).map_values(|r: ReferenceView| reference_json(r)),
            views(out@) == all.take(i as int),
        decreases list@.len() - i,
    {
        let j = reference(&list[i]);
        let ghost before = out@;
        out.push(j);
        i += 1;
        assert(views(out@) =~= views(before).push(j@));
        assert(views(out@) =~= all.take(i as int));
    }
    assert(views(out@) =~= all);
    array(out)
}

/// What a caller asked a search for references for.
#[derive(Debug)]
pub struct ReferencesRequest {
    pub file: String,
    pub target: String,
    pub raw: bool,
}

/// Renders the result of a search for references; nothing where a URI cannot be
/// decoded.
pub fn render_references(
    workspace: &str,
    request: &ReferencesRequest,
    line: usize,
    from_symbol: bool,
    sources: &Vec<Source>,
    locations: &Vec<Json>,
) -> (r: Option<Json>)
    requires
        line < usize::MAX,
    ensures
        r is Some <==> locations_decodable(views(locations@)),
        r matches Some(j) ==> j@ == references_json(
            workspace@,
            request.file@,
            request.target@,
            line as nat,
            from_symbol,
            request.raw,
            source_views(sources@),
            views(locations@),
        ),
{
    let list = match render_locations(workspace, sources, locations) {
        Some(l) => l,
        None => return None,
    };
    assert(reference_views(list@).len() == list@.len());
    let mut out = Members::new().with("file", text(request.file.as_str())).with(
        "target",
        text(request.target.as_str()),
    ).with(
        "resolved",
        resolved(request.file.as_str(), line, from_symbol),
    ).with("count", unsigned(list.len() as u64)).with("references", reference_list(&list));
    if request.raw {
        out.put("locations", copies(locations));
    }
    Some(out.object())
}

/// A copy of a list of values.
fn copies(items: &Vec<Json>) -> (r: Json)
    ensures
        r@ == JsonView::Array(views(items@)),
{
    let mut out: Vec<Json> = Vec::new();
    let mut i: usize = 0;
    while i < items.len()
        invariant
            i <= items@.len(),
            views(out@) == views(items@).take(i as int),
        decreases items@.len() - i,
    {
        let j = items[i].duplicate();
        let ghost before = out@;
        out.push(j);
        i += 1;
        assert(views(out@) =~= views(before).push(j@));
        assert(views(out@) =~= views(items@).take(i as int));
    }
    assert(views(out@) =~= views(items@));
    array(out)
}

// ---------------------------------------------------------------------------
// Diagnostics
// ---------------------------------------------------------------------------

/// A severity in words.
pub open spec fn severity_word(j: JsonView) -> Seq<char> {
    match as_u64(j) {
        Some(n) => if n == 1 {
            "error"@
        } else if n == 2 {
            "warning"@
        } else if n == 3 {
            "information"@
        } else if n == 4 {
            "hint"@
        } else {
            "unknown"@
        },
        None => "unknown"@,
    }
}

/// The items of an array; none where a value is no array.
pub open spec fn items_of(j: JsonView) -> Seq<JsonView> {
    match as_array(j) {
        Some(items) => items,
        None => Seq::empty(),
    }
}

/// The file of a URI as it is shown; the URI itself where it cannot be decoded.
pub open spec fn shown_uri(workspace: Seq<char>, uri: Seq<char>) -> Seq<char> {
    if decodable(uri) {
        shown(workspace, path_of(uri))
    } else {
        uri
    }
}

/// A related place: its file, its line counted from one, and what is said of it.
pub open spec fn related_json(workspace: Seq<char>, info: JsonView) -> JsonView {
    let loc = at(info, "location"@);
    JsonView::Object(
        no_members().insert(
            "file"@,
            JsonView::Text(shown_uri(workspace, location_uri(loc))),
        ).insert(
            "line"@,
            JsonView::Num(
                Num::Unsigned(from_one(number_or_zero(at(location_start(loc), "line"@)))),
            ),
        ).insert("message"@, at(info, "message"@)),
    )
}

/// The related places of a diagnostic.
pub open spec fn related_list(workspace: Seq<char>, d: JsonView) -> Seq<JsonView> {
    items_of(at(d, "relatedInformation"@)).map_values(|i: JsonView| related_json(workspace, i))
}

/// A diagnostic as it is printed: the severity in words, the line counted from
/// one and its text, and no range.
pub open spec fn diagnostic_json(
    workspace: Seq<char>,
    content: Seq<char>,
    d: JsonView,
) -> JsonView {
    let line = number_or_zero(at(location_start(d), "line"@));
    JsonView::Object(
        no_members().insert("severity"@, JsonView::Text(severity_word(at(d, "severity"@)))).insert(
            "line"@,
            JsonView::Num(Num::Unsigned(from_one(line))),
        ).insert("code"@, at(d, "code"@)).insert("source"@, at(d, "source"@)).insert(
            "message"@,
            at(d, "message"@),
        ).insert("text"@, JsonView::Text(source_line(content, line))).insert(
            "related"@,
            JsonView::Array(related_list(workspace, d)),
        ),
    )
}

/// The diagnostics as they are printed, one by one; what is no list of diagnostics
/// is printed as it is.
pub open spec fn rendered_diagnostics(
    workspace: Seq<char>,
    content: Seq<char>,
    diagnostics: JsonView,
) -> JsonView {
    match as_array(diagnostics) {
        Some(list) => JsonView::Array(
            list.map_values(|d: JsonView| diagnostic_json(workspace, content, d)),
        ),
        None => diagnostics,
    }
}

/// The result of a check of a file. The server's diagnostics are in it only where
/// the caller asked for them.
pub open spec fn diagnostics_json(
    workspace: Seq<char>,
    file: Seq<char>,
    content: Seq<char>,
    raw: bool,
    diagnostics: JsonView,
) -> JsonView {
    let m = no_members().insert("file"@, JsonView::Text(file)).insert(
        "count"@,
        count_json(items_of(diagnostics).len()),
    ).insert("diagnostics"@, rendered_diagnostics(workspace, content, diagnostics));
    JsonView::Object(
        if raw {
            m.insert("raw"@, diagnostics)
        } else {
            m
        },
    )
}

fn severity(j: Option<&Json>) -> (r: Json)
    ensures
        r@ == JsonView::Text(severity_word(opt_view(j))),
{
    match number_in(j) {
        Some(1) => text("error"),
        Some(2) => text("warning"),
        Some(3) => text("information"),
        Some(4) => text("hint"),
        _ => text("unknown"),
    }
}

fn shown_file(workspace: &str, uri: &str) -> (r: String)
    ensures
        r@ == shown_uri(workspace@, uri@),
{
    match try_uri_to_path(uri) {
        Some(path) => show_path(workspace, path.as_str()),
        None => owned(uri),
    }
}

fn related(workspace: &str, info: &Json) -> (r: Json)
    ensures
        r@ == related_json(workspace@, info@),
{
    let none = Json::Null;
    let loc: &Json = match info.get("location") {
        Some(l) => l,
        None => &none,
    };
    let start = member(loc.get("range"), "start");
    let line: u64 = zero_or(number_in(member(start, "line")));
    let file = shown_file(workspace, uri_text(loc));
    Members::new().with("file", text(file.as_str())).with(
        "line",
        unsigned(counted_from_one(line)),
    ).with("message", copy_of(info.get("message"))).object()
}

fn related_places(workspace: &str, d: &Json) -> (r: Json)
    ensures
        r@ == JsonView::Array(related_list(workspace@, d@)),
{
    let none: Vec<Json> = Vec::new();
    assert(views(none@) =~= Seq::empty());
    let list: &Vec<Json> = match d.get("relatedInformation") {
        Some(v) => match v.as_array() {
            Some(items) => items,
            None => &none,
        },
        None => &none,
    };
    let ghost infos = views(list@);
    assert(infos == items_of(at(d@, "relatedInformation"@)));
    let ghost all = related_list(workspace@, d@);
    let mut out: Vec<Json> = Vec::new();
    let mut i: usize = 0;
    while i < list.len()
        invariant
            i <= list@.len(),
            infos == views(list@),
            infos == items_of(at(d@, "relatedInformation"@)),
            all == related_list(workspace@, d@),
            views(out@) == all.take(i as int),
        decreases list@.len() - i,
    {
        assert(infos[i as int] == list@[i as int]@);
        let j = related(workspace, &list[i]);
        let ghost before = out@;
        out.push(j);
        i += 1;
        assert(views(out@) =~= views(before).push(j@));
        assert(views(out@) =~= all.take(i as int));
    }
    assert(views(out@) =~= all);
    array(out)
}

fn diagnostic(workspace: &str, content: &str, d: &Json) -> (r: Json)
    ensures
        r@ == diagnostic_json(workspace@, content@, d@),
{
    let places = related_places(workspace, d);
    let start = member(d.get("range"), "start");
    let line: u64 = zero_or(number_in(member(start, "line")));
    let line_text = line_of_source(content, line);
    Members::new().with("severity", severity(d.get("severity"))).with(
        "line",
        unsigned(counted_from_one(line)),
    ).with("code", copy_of(d.get("code"))).with("source", copy_of(d.get("source"))).with(
        "message",
        copy_of(d.get("message")),
    ).with("text", text(line_text.as_str())).with("related", places).object()
}

fn diagnostic_list(workspace: &str, content: &str, list: &Vec<Json>) -> (r: Json)
    ensures
        r@ == JsonView::Array(
            views(list@).map_values(|d: JsonView| diagnostic_json(workspace@, content@, d)),
        ),
{
    let ghost all = views(list@).map_values(
        |d: JsonView| diagnostic_json(workspace@, content@, d),
    );
    let mut out: Vec<Json> = Vec::new();
    let mut i: usize = 0;
    while i < list.len()
        invariant
            i <= list@.len(),
            all == views(list@).map_values(
                |d: JsonView| diagnostic_json(workspace@, content@, d),
            ),
            views(out@) == all.take(i as int),
        decreases list@.len() - i,
    {
        let j = diagnostic(workspace, content, &list[i]);
        let ghost before = out@;
        out.push(j);
        i += 1;
        assert(views(out@) =~= views(before).push(j@));
        assert(views(out@) =~= all.take(i as int));
    }
    assert(views(out@) =~= all);
    array(out)
}

/// What a caller asked a check of a file for.
#[derive(Debug)]
pub struct DiagnosticsRequest {
    pub file: String,
    pub raw: bool,
}

/// Renders the diagnostics of a file with the text `content`.
pub fn render_diagnostics(
    workspace: &str,
    request: &DiagnosticsRequest,
    content: &str,
    diagnostics: &Json,
) -> (r: Json)
    ensures
        r@ == diagnostics_json(
            workspace@,
            request.file@,
            content@,
            request.raw,
            diagnostics@,
        ),
{
    let mut count: u64 = 0;
    let rendered = match diagnostics.as_array() {
        Some(list) => {
            assert(views(list@).len() == list@.len());
            count = list.len() as u64;
            diagnostic_list(workspace, content, list)
        },
        None => diagnostics.duplicate(),
    };
    let mut m = Members::new().with("file", text(request.file.as_str())).with(
        "count",
        unsigned(count),
    ).with("diagnostics", rendered);
    if request.raw {
        m.put("raw", diagnostics.duplicate());
    }
    m.object()
}

// ---------------------------------------------------------------------------
// What results never show
// ---------------------------------------------------------------------------

/// References are ordered by file, line and column.
proof fn lemma_reference_order()
    ensures
        is_order(reference_order()),
{
    let less = reference_order();
    assert forall|a: ReferenceView, b: ReferenceView| #[trigger] less(a, b) implies !less(b, a) by {
        lemma_text_irreflexive(a.file);
        if text_less(a.file, b.file) && text_less(b.file, a.file) {
            lemma_text_transitive(a.file, b.file, a.file);
        }
    }
    assert forall|a: ReferenceView, b: ReferenceView, c: ReferenceView|
        #![trigger less(b, a), less(c, b)]
        !less(b, a) && !less(c, b) implies !less(c, a) by {
        lemma_text_total(a.file, b.file);
        lemma_text_total(b.file, c.file);
        lemma_text_irreflexive(a.file);
        if text_less(a.file, b.file) && text_less(b.file, c.file) {
            lemma_text_transitive(a.file, b.file, c.file);
        }
        if text_less(c.file, a.file) && text_less(a.file, c.file) {
            lemma_text_transitive(c.file, a.file, c.file);
            lemma_text_irreflexive(c.file);
        }
    }
}

/// The references come in the order of file, line and column, one for each location.
pub proof fn lemma_references_in_order(
    workspace: Seq<char>,
    sources: Seq<SourceView>,
    locations: Seq<JsonView>,
)
    ensures
        in_order(references_at(workspace, sources, locations), reference_order()),
        references_at(workspace, sources, locations).to_multiset() == locations.map_values(
            |l: JsonView| reference_at(workspace, sources, l),
        ).to_multiset(),
{
    lemma_reference_order();
    lemma_sorted_by(
        locations.map_values(|l: JsonView| reference_at(workspace, sources, l)),
        reference_order(),
    );
}

/// No column reaches a caller: the rows of a rename, the references and the
/// diagnostics hold neither a column nor a range.
pub proof fn lemma_no_columns(
    workspace: Seq<char>,
    content: Seq<char>,
    row: RowView,
    reference: ReferenceView,
    diagnostic: JsonView,
)
    ensures
        crate::json::get(change_json(workspace, row), "character"@) is None,
        crate::json::get(reference_json(reference), "character"@) is None,
        crate::json::get(diagnostic_json(workspace, content, diagnostic), "character"@) is None,
        crate::json::get(diagnostic_json(workspace, content, diagnostic), "range"@) is None,
{
    reveal_strlit("character");
    reveal_strlit("range");
    reveal_strlit("file");
    reveal_strlit("line");
    reveal_strlit("before");
    reveal_strlit("after");
    reveal_strlit("text");
    reveal_strlit("severity");
    reveal_strlit("code");
    reveal_strlit("source");
    reveal_strlit("message");
    reveal_strlit("related");
    assert("character"@.len() == 9);
    assert("range"@.len() == 5);
    assert("after"@.len() == 5);
    assert("range"@[0] != "after"@[0]);
    assert("file"@.len() == 4 && "line"@.len() == 4 && "text"@.len() == 4 && "code"@.len() == 4);
    assert("before"@.len() == 6 && "source"@.len() == 6);
    assert("message"@.len() == 7 && "related"@.len() == 7);
    assert("severity"@.len() == 8);
}

/// What the server said is in a result exactly where the caller asked for it.
pub proof fn lemma_raw_on_request(
    workspace: Seq<char>,
    q: RenameRequestView,
    line: nat,
    from_symbol: bool,
    files: nat,
    edits: nat,
    rows: Seq<RowView>,
    edit: JsonView,
    sources: Seq<SourceView>,
    locations: Seq<JsonView>,
    content: Seq<char>,
    raw: bool,
    diagnostics: JsonView,
)
    ensures
        crate::json::get(
            rename_json(workspace, q, line, from_symbol, files, edits, rows, edit),
            "edit"@,
        ) == (if q.raw {
            Some(edit)
        } else {
            None
        }),
        crate::json::get(
            references_json(
                workspace,
                q.file,
                q.target,
                line,
                from_symbol,
                raw,
                sources,
                locations,
            ),
            "locations"@,
        ) == (if raw {
            Some(JsonView::Array(locations))
        } else {
            None
        }),
        crate::json::get(
            diagnostics_json(workspace, q.file, content, raw, diagnostics),
            "raw"@,
        ) == (if raw {
            Some(diagnostics)
        } else {
            None
        }),
{
    reveal_strlit("edit");
    reveal_strlit("locations");
    reveal_strlit("raw");
    reveal_strlit("status");
    reveal_strlit("target");
    reveal_strlit("renamed_to");
    reveal_strlit("resolved");
    reveal_strlit("scope");
    reveal_strlit("changes");
    reveal_strlit("count");
    reveal_strlit("references");
    reveal_strlit("file");
    reveal_strlit("diagnostics");
    assert("edit"@.len() == 4);
    assert("locations"@.len() == 9);
    assert("raw"@.len() == 3);
}

/// References come by file, those of one file by line, and those of one line by column.
pub proof fn lemma_references_by_place(
    workspace: Seq<char>,
    sources: Seq<SourceView>,
    locations: Seq<JsonView>,
    i: int,
    j: int,
)
    requires
        0 <= i < j < references_at(workspace, sources, locations).len(),
    ensures
        ({
            let a = references_at(workspace, sources, locations)[i];
            let b = references_at(workspace, sources, locations)[j];
            &&& a.file == b.file || text_less(a.file, b.file)
            &&& a.file == b.file ==> a.line <= b.line
            &&& a.file == b.file && a.line == b.line ==> a.character <= b.character
        }),
{
    lemma_references_in_order(workspace, sources, locations);
    let list = references_at(workspace, sources, locations);
    let less = reference_order();
    assert(!less(list[j], list[i]));
    assert(!reference_less(list[j], list[i]));
    lemma_text_total(list[i].file, list[j].file);
}

} // verus!
