//! Workspace edits: what a server wants changed, file by file.

use vstd::prelude::*;
use vstd::utf8::encode_utf8;

use crate::apply::{applicable, edit_views, edited, try_apply_text_edits, TextEdit, TextEditView};
use crate::decode::{edits_in, read_edits, wrong_type, wrong_type_text};
use crate::json::{
    as_array, as_str, at, entry_views, get, member, members, text_in, views, Json, JsonView,
};
use crate::order::{
    comes_before, has_key, is_order, lemma_listed, lemma_listing, lemma_lists_empty,
    lemma_lists_insert, lemma_lists_update, lemma_sorted_by, lemma_text_irreflexive,
    lemma_text_total, lemma_text_transitive, listing, lists, slotted, sorted_by, text_less,
};
use crate::text::{debug_text, owned, same_text, str_debug};
use crate::uri::{decodable, path_of, try_uri_to_path};

verus! {

/// The edits of one document.
#[derive(Debug)]
pub struct FileEdits {
    pub uri: String,
    pub edits: Vec<TextEdit>,
}

impl View for FileEdits {
    type V = (Seq<char>, Seq<TextEditView>);

    open spec fn view(&self) -> (Seq<char>, Seq<TextEditView>) {
        (self.uri@, edit_views(self.edits@))
    }
}

/// What a list of documents' edits means.
pub open spec fn file_views(files: Seq<FileEdits>) -> Seq<(Seq<char>, Seq<TextEditView>)> {
    files.map_values(|f: FileEdits| f@)
}

/// The refusal of an operation that creates, renames or deletes a file.
pub open spec fn resource_refusal(kind: Seq<char>) -> Seq<char> {
    "WorkspaceEdit resource operation "@ + str_debug(kind) + " not supported in v0"@
}

/// The edits by document with more edits for one of them, behind those it has.
pub open spec fn extended(
    m: Map<Seq<char>, Seq<TextEditView>>,
    uri: Seq<char>,
    edits: Seq<TextEditView>,
) -> Map<Seq<char>, Seq<TextEditView>> {
    m.insert(
        uri,
        if m.contains_key(uri) {
            m[uri] + edits
        } else {
            edits
        },
    )
}

/// The edits by document with one document change more.
pub open spec fn with_change(
    m: Map<Seq<char>, Seq<TextEditView>>,
    change: JsonView,
) -> Result<Map<Seq<char>, Seq<TextEditView>>, Seq<char>> {
    match as_str(at(change, "kind"@)) {
        Some(kind) => Err(resource_refusal(kind)),
        None => match as_str(at(at(change, "textDocument"@), "uri"@)) {
            None => Err("documentChange missing textDocument.uri"@),
            Some(uri) => match edits_in(at(change, "edits"@)) {
                Err(e) => Err(e),
                Ok(edits) => Ok(extended(m, uri, edits)),
            },
        },
    }
}

/// The edits by document of a list of document changes; the first that is
/// refused decides.
pub open spec fn document_changes(changes: Seq<JsonView>) -> Result<
    Map<Seq<char>, Seq<TextEditView>>,
    Seq<char>,
>
    decreases changes.len(),
{
    if changes.len() == 0 {
        Ok(Map::empty())
    } else {
        match document_changes(changes.drop_last()) {
            Err(e) => Err(e),
            Ok(m) => with_change(m, changes.last()),
        }
    }
}

/// The edits by document of the plain encoding, its documents in the order of
/// their names; the first that is refused decides.
pub open spec fn plain_changes(files: Seq<(Seq<char>, JsonView)>) -> Result<
    Map<Seq<char>, Seq<TextEditView>>,
    Seq<char>,
>
    decreases files.len(),
{
    if files.len() == 0 {
        Ok(Map::empty())
    } else {
        match plain_changes(files.drop_last()) {
            Err(e) => Err(e),
            Ok(m) => match edits_in(files.last().1) {
                Err(e) => Err(e),
                Ok(edits) => Ok(m.insert(files.last().0, edits)),
            },
        }
    }
}

/// The edits by document that a workspace edit holds, in either encoding; the
/// versioned one counts where both are there.
pub open spec fn collected(edit: JsonView) -> Result<
    Map<Seq<char>, Seq<TextEditView>>,
    Seq<char>,
> {
    match get(edit, "documentChanges"@) {
        Some(d) => match as_array(d) {
            Some(changes) => document_changes(changes),
            None => Err("documentChanges not an array"@),
        },
        None => match get(edit, "changes"@) {
            Some(JsonView::Object(files)) => plain_changes(listing(files)),
            Some(other) => Err(wrong_type(other, "a map"@)),
            None => Ok(Map::empty()),
        },
    }
}

/// The members of an object by their place, in the order of the names.
spec fn picked(entries: Seq<(String, Json)>, order: Seq<usize>) -> Seq<(Seq<char>, JsonView)> {
    order.map_values(|i: usize| (entries[i as int].0@, entries[i as int].1@))
}

/// The places of the members that count, in the order of their names.
fn sorted_members(entries: &Vec<(String, Json)>) -> (r: Vec<usize>)
    ensures
        forall|k: int| 0 <= k < r@.len() ==> (#[trigger] r@[k]) < entries@.len(),
        lists(picked(entries@, r@), members(entry_views(entries@))),
{
    let ghost all = entry_views(entries@);
    let mut order: Vec<usize> = Vec::new();
    let mut i: usize = 0;
    proof {
        assert(picked(entries@, order@) =~= Seq::empty());
        lemma_lists_empty::<JsonView>();
    }
    while i < entries.len()
        invariant
            i <= entries@.len(),
            all == entry_views(entries@),
            forall|k: int| 0 <= k < order@.len() ==> (#[trigger] order@[k]) < i,
            lists(picked(entries@, order@), members(all.take(i as int))),
        decreases entries@.len() - i,
    {
        let ghost now = picked(entries@, order@);
        let ghost m = members(all.take(i as int));
        let ghost name = entries@[i as int].0@;
        let mut p: usize = 0;
        while p < order.len() && comes_before(
            entries[order[p]].0.as_str(),
            entries[i].0.as_str(),
        )
            invariant
                p <= order@.len(),
                i < entries@.len(),
                name == entries@[i as int].0@,
                forall|k: int| 0 <= k < order@.len() ==> (#[trigger] order@[k]) < i,
                now == picked(entries@, order@),
                p > 0 ==> text_less(now[p - 1].0, name),
            decreases order@.len() - p,
        {
            assert(now[p as int].0 == entries@[order@[p as int] as int].0@);
            p += 1;
        }
        proof {
            let part = all.take(i + 1);
            assert(part.drop_last() =~= all.take(i as int));
            assert(part.last() == all[i as int]);
        }
        if p < order.len() && same_text(entries[order[p]].0.as_str(), entries[i].0.as_str()) {
            proof {
                lemma_lists_update(now, m, p as int, entries@[i as int].1@);
            }
            order.set(p, i);
            assert(picked(entries@, order@) =~= now.update(
                p as int,
                (now[p as int].0, entries@[i as int].1@),
            ));
        } else {
            proof {
                if p < order@.len() {
                    lemma_text_total(now[p as int].0, name);
                }
                lemma_lists_insert(now, m, p as int, name, entries@[i as int].1@);
            }
            order.insert(p, i);
            assert(picked(entries@, order@) =~= now.insert(
                p as int,
                (name, entries@[i as int].1@),
            ));
        }
        i += 1;
    }
    assert(all.take(i as int) =~= all);
    order
}

/// Adds edits to a document's entry, or a new entry in the order of the names.
fn extend_files(
    files: &mut Vec<FileEdits>,
    uri: String,
    edits: Vec<TextEdit>,
    Ghost(m): Ghost<Map<Seq<char>, Seq<TextEditView>>>,
)
    requires
        lists(file_views(old(files)@), m),
    ensures
        lists(file_views(final(files)@), extended(m, uri@, edit_views(edits@))),
{
    let ghost now = file_views(files@);
    let mut p: usize = 0;
    while p < files.len() && comes_before(files[p].uri.as_str(), uri.as_str())
        invariant
            p <= files@.len(),
            now == file_views(files@),
            p > 0 ==> text_less(now[p - 1].0, uri@),
        decreases files@.len() - p,
    {
        p += 1;
    }
    if p < files.len() && same_text(files[p].uri.as_str(), uri.as_str()) {
        let ghost before = files@;
        let mut entry = files.remove(p);
        let mut more = edits;
        let ghost old_edits = entry.edits@;
        entry.edits.append(&mut more);
        let ghost grown = entry@;
        proof {
            assert(entry.edits@ =~= old_edits + edits@);
            assert(edit_views(entry.edits@) =~= edit_views(old_edits) + edit_views(edits@));
            assert(now[p as int] == before[p as int]@);
            lemma_lists_update(now, m, p as int, grown.1);
        }
        files.insert(p, entry);
        assert(file_views(files@) =~= now.update(p as int, (now[p as int].0, grown.1)));
    } else {
        proof {
            if p < files@.len() {
                assert(now[p as int].0 == files@[p as int].uri@);
                lemma_text_total(now[p as int].0, uri@);
            }
            lemma_lists_insert(now, m, p as int, uri@, edit_views(edits@));
        }
        let ghost k = uri@;
        let ghost x = edit_views(edits@);
        files.insert(p, FileEdits { uri, edits });
        assert(file_views(files@) =~= now.insert(p as int, (k, x)));
    }
}

fn resource_refusal_text(kind: &str) -> (r: String)
    ensures
        r@ == resource_refusal(kind@),
{
    let mut out = owned("WorkspaceEdit resource operation ");
    let shown = debug_text(kind);
    out.append(shown.as_str());
    out.append(" not supported in v0");
    out
}

/// Reads one document change: its document and its edits.
fn read_change(change: &Json) -> (r: Result<FileEdits, String>)
    ensures
        match r {
            Ok(f) => forall|m: Map<Seq<char>, Seq<TextEditView>>| #[trigger]
                with_change(m, change@) == Ok::<
                    Map<Seq<char>, Seq<TextEditView>>,
                    Seq<char>,
                >(extended(m, f@.0, f@.1)),
            Err(e) => forall|m: Map<Seq<char>, Seq<TextEditView>>| #[trigger]
                with_change(m, change@) == Err::<Map<Seq<char>, Seq<TextEditView>>, Seq<char>>(e@),
        },
{
    match text_in(change.get("kind")) {
        Some(kind) => return Err(resource_refusal_text(kind)),
        None => {},
    }
    let uri = match text_in(member(change.get("textDocument"), "uri")) {
        Some(uri) => owned(uri),
        None => return Err(owned("documentChange missing textDocument.uri")),
    };
    let none = Json::Null;
    let listed = match change.get("edits") {
        Some(v) => v,
        None => &none,
    };
    match read_edits(listed) {
        Ok(edits) => Ok(FileEdits { uri, edits }),
        Err(e) => Err(e),
    }
}

/// A refusal among the first changes is the refusal of all.
proof fn lemma_changes_refused(changes: Seq<JsonView>, k: int)
    requires
        0 <= k <= changes.len(),
        document_changes(changes.take(k)) is Err,
    ensures
        document_changes(changes) == document_changes(changes.take(k)),
    decreases changes.len(),
{
    if k == changes.len() {
        assert(changes.take(k) =~= changes);
    } else {
        assert(changes.drop_last().take(k) =~= changes.take(k));
        lemma_changes_refused(changes.drop_last(), k);
    }
}

/// A refusal among the first documents is the refusal of all.
proof fn lemma_plain_refused(files: Seq<(Seq<char>, JsonView)>, k: int)
    requires
        0 <= k <= files.len(),
        plain_changes(files.take(k)) is Err,
    ensures
        plain_changes(files) == plain_changes(files.take(k)),
    decreases files.len(),
{
    if k == files.len() {
        assert(files.take(k) =~= files);
    } else {
        assert(files.drop_last().take(k) =~= files.take(k));
        lemma_plain_refused(files.drop_last(), k);
    }
}

/// Whether a list of documents' edits is what the specification says.
pub open spec fn files_agree(
    r: Result<Vec<FileEdits>, String>,
    s: Result<Map<Seq<char>, Seq<TextEditView>>, Seq<char>>,
) -> bool {
    match (r, s) {
        (Ok(files), Ok(m)) => lists(file_views(files@), m),
        (Err(e), Err(f)) => e@ == f,
        _ => false,
    }
}

fn collect_document_changes(changes: &Vec<Json>) -> (r: Result<Vec<FileEdits>, String>)
    ensures
        files_agree(r, document_changes(views(changes@))),
{
    let ghost all = views(changes@);
    let mut files: Vec<FileEdits> = Vec::new();
    let ghost mut m = Map::<Seq<char>, Seq<TextEditView>>::empty();
    let mut i: usize = 0;
    proof {
        assert(file_views(files@) =~= Seq::empty());
        lemma_lists_empty::<Seq<TextEditView>>();
    }
    while i < changes.len()
        invariant
            i <= changes@.len(),
            all == views(changes@),
            document_changes(all.take(i as int)) == Ok::<
                Map<Seq<char>, Seq<TextEditView>>,
                Seq<char>,
            >(m),
            lists(file_views(files@), m),
        decreases changes@.len() - i,
    {
        proof {
            let part = all.take(i + 1);
            assert(part.last() == changes@[i as int]@);
            assert(part.drop_last() =~= all.take(i as int));
        }
        match read_change(&changes[i]) {
            Ok(f) => {
                let ghost next = extended(m, f@.0, f@.1);
                assert(with_change(m, changes@[i as int]@) == Ok::<
                    Map<Seq<char>, Seq<TextEditView>>,
                    Seq<char>,
                >(next));
                extend_files(&mut files, f.uri, f.edits, Ghost(m));
                proof {
                    m = next;
                }
            },
            Err(e) => {
                proof {
                    assert(with_change(m, changes@[i as int]@) is Err);
                    lemma_changes_refused(all, i + 1);
                }
                return Err(e);
            },
        }
        i += 1;
    }
    assert(all.take(i as int) =~= all);
    Ok(files)
}

fn collect_plain_changes(entries: &Vec<(String, Json)>) -> (r: Result<Vec<FileEdits>, String>)
    ensures
        files_agree(r, plain_changes(listing(members(entry_views(entries@))))),
{
    let order = sorted_members(entries);
    let ghost all = picked(entries@, order@);
    proof {
        lemma_listing(all, members(entry_views(entries@)));
    }
    let mut files: Vec<FileEdits> = Vec::new();
    let ghost mut m = Map::<Seq<char>, Seq<TextEditView>>::empty();
    let mut i: usize = 0;
    proof {
        assert(file_views(files@) =~= Seq::empty());
        lemma_lists_empty::<Seq<TextEditView>>();
    }
    while i < order.len()
        invariant
            i <= order@.len(),
            all == picked(entries@, order@),
            all == listing(members(entry_views(entries@))),
            lists(all, members(entry_views(entries@))),
            forall|k: int| 0 <= k < order@.len() ==> (#[trigger] order@[k]) < entries@.len(),
            plain_changes(all.take(i as int)) == Ok::<
                Map<Seq<char>, Seq<TextEditView>>,
                Seq<char>,
            >(m),
            lists(file_views(files@), m),
            files@.len() == i,
            forall|k: int| 0 <= k < i ==> (#[trigger] file_views(files@)[k]).0 == all[k].0,
        decreases order@.len() - i,
    {
        let entry = &entries[order[i]];
        proof {
            let part = all.take(i + 1);
            assert(part.last() == all[i as int]);
            assert(all[i as int] == (entry.0@, entry.1@));
            assert(part.drop_last() =~= all.take(i as int));
        }
        match read_edits(&entry.1) {
            Ok(edits) => {
                let uri = owned(entry.0.as_str());
                let ghost now = file_views(files@);
                let ghost x = edit_views(edits@);
                proof {
                    if i > 0 {
                        assert(text_less(all[i - 1].0, all[i as int].0));
                        assert(now[i - 1].0 == all[i - 1].0);
                    }
                    lemma_lists_insert(now, m, i as int, uri@, x);
                    m = m.insert(uri@, x);
                }
                files.push(FileEdits { uri, edits });
                assert(file_views(files@) =~= now.insert(i as int, (uri@, x)));
            },
            Err(e) => {
                proof {
                    lemma_plain_refused(all, i + 1);
                }
                return Err(e);
            },
        }
        i += 1;
    }
    assert(all.take(i as int) =~= all);
    Ok(files)
}

/// Flattens a workspace edit to the edits of each document, from either
/// encoding, in the order of the documents' names. Operations on whole files are
/// refused rather than dropped.
pub fn collect_text_edits(edit: &Json) -> (r: Result<Vec<FileEdits>, String>)
    ensures
        files_agree(r, collected(edit@)),
{
    match edit.get("documentChanges") {
        Some(d) => match d.as_array() {
            Some(changes) => collect_document_changes(changes),
            None => Err(owned("documentChanges not an array")),
        },
        None => match edit.get("changes") {
            Some(c) => match c {
                Json::Object(entries) => {
                    proof {
                        crate::json::lemma_object_view(*entries);
                    }
                    collect_plain_changes(entries)
                },
                _ => Err(wrong_type_text(c, "a map")),
            },
            None => {
                let files: Vec<FileEdits> = Vec::new();
                proof {
                    assert(file_views(files@) =~= Seq::empty());
                    lemma_lists_empty::<Seq<TextEditView>>();
                }
                Ok(files)
            },
        },
    }
}

/// An operation on a whole file is never passed over: a workspace edit that
/// holds one is refused, whatever else it holds.
pub proof fn lemma_resource_operations_refused(edit: JsonView, changes: Seq<JsonView>, i: int)
    requires
        get(edit, "documentChanges"@) == Some(JsonView::Array(changes)),
        0 <= i < changes.len(),
        as_str(at(changes[i], "kind"@)) is Some,
    ensures
        collected(edit) is Err,
{
    let part = changes.take(i + 1);
    assert(part.last() == changes[i]);
    assert(document_changes(part) is Err);
    lemma_changes_refused(changes, i + 1);
}

/// Of the two encodings the versioned one counts where both are there.
pub proof fn lemma_document_changes_first(edit: JsonView, other: JsonView)
    requires
        get(edit, "documentChanges"@) is Some,
        get(edit, "documentChanges"@) == get(other, "documentChanges"@),
    ensures
        collected(edit) == collected(other),
{
}

/// Applies a workspace edit to one of its files: where the file lies, and its new
/// text. Nothing where the file's URI cannot be decoded, or where its edits
/// overlap so that they do not fit.
pub fn apply_workspace_edit(file: &FileEdits, content: &str) -> (r: Option<(String, String)>)
    ensures
        r is Some <==> decodable(file@.0) && applicable(content@, file@.1),
        r matches Some((path, new_text)) ==> path@ == path_of(file@.0) && encode_utf8(new_text@)
            == edited(content@, file@.1),
{
    match (try_uri_to_path(file.uri.as_str()), try_apply_text_edits(content, &file.edits)) {
        (Some(path), Some(new_text)) => Some((path, new_text)),
        _ => None,
    }
}

/// The order of texts.
pub open spec fn text_order() -> spec_fn(Seq<char>, Seq<char>) -> bool {
    |a: Seq<char>, b: Seq<char>| text_less(a, b)
}

/// Whether every file's URI can be decoded.
pub open spec fn all_decodable(files: Seq<(Seq<char>, Seq<TextEditView>)>) -> bool {
    forall|i: int| 0 <= i < files.len() ==> decodable((#[trigger] files[i]).0)
}

/// Where the files of a workspace edit lie.
pub open spec fn file_paths(files: Seq<(Seq<char>, Seq<TextEditView>)>) -> Seq<Seq<char>> {
    files.map_values(|f: (Seq<char>, Seq<TextEditView>)| path_of(f.0))
}

/// Puts a path in its place.
fn slot_path(list: &mut Vec<String>, path: String)
    ensures
        final(list)@.map_values(|s: String| s@) == slotted(
            old(list)@.map_values(|s: String| s@),
            path@,
            text_order(),
        ),
{
    let ghost before = list@;
    let ghost all = before.map_values(|s: String| s@);
    let mut k: usize = list.len();
    assert(all.take(k as int) =~= all);
    assert(slotted(all, path@, text_order()) + all.skip(k as int) =~= slotted(
        all,
        path@,
        text_order(),
    ));
    while k > 0 && comes_before(path.as_str(), list[k - 1].as_str())
        invariant
            list@ == before,
            all == before.map_values(|s: String| s@),
            k <= before.len(),
            slotted(all, path@, text_order()) == slotted(all.take(k as int), path@, text_order())
                + all.skip(k as int),
        decreases k,
    {
        proof {
            let part = all.take(k as int);
            assert(part.last() == before[k - 1]@);
            assert(part.drop_last() =~= all.take(k - 1));
            assert(slotted(part, path@, text_order()) + all.skip(k as int) =~= slotted(
                part.drop_last(),
                path@,
                text_order(),
            ) + all.skip(k - 1));
        }
        k -= 1;
    }
    let ghost part = all.take(k as int);
    proof {
        if k > 0 {
            assert(part.last() == before[k - 1]@);
        }
        assert(slotted(part, path@, text_order()) == part.push(path@));
    }
    let ghost v = path@;
    list.insert(k, path);
    assert(list@.map_values(|s: String| s@) =~= part.push(v) + all.skip(k as int));
}

/// The files that a workspace edit changes, in order; nothing where one's URI
/// cannot be decoded.
pub fn changed_files(files: &Vec<FileEdits>) -> (r: Option<Vec<String>>)
    ensures
        r is Some <==> all_decodable(file_views(files@)),
        r matches Some(list) ==> list@.map_values(|s: String| s@) == sorted_by(
            file_paths(file_views(files@)),
            text_order(),
        ),
{
    let ghost all = file_paths(file_views(files@));
    let mut out: Vec<String> = Vec::new();
    let mut i: usize = 0;
    assert(out@.map_values(|s: String| s@) =~= all.take(0));
    while i < files.len()
        invariant
            i <= files@.len(),
            all == file_paths(file_views(files@)),
            forall|k: int| 0 <= k < i ==> decodable((#[trigger] file_views(files@)[k]).0),
            out@.map_values(|s: String| s@) == sorted_by(all.take(i as int), text_order()),
        decreases files@.len() - i,
    {
        assert(file_views(files@)[i as int] == files@[i as int]@);
        match try_uri_to_path(files[i].uri.as_str()) {
            Some(path) => {
                proof {
                    let part = all.take(i + 1);
                    assert(part.last() == path@);
                    assert(part.drop_last() =~= all.take(i as int));
                }
                slot_path(&mut out, path);
            },
            None => return None,
        }
        i += 1;
    }
    assert(all.take(i as int) =~= all);
    Some(out)
}

/// Whether document changes say what the plain encoding says, document by document.
pub open spec fn same_changes(changes: Seq<JsonView>, files: Seq<(Seq<char>, JsonView)>) -> bool {
    &&& changes.len() == files.len()
    &&& forall|i: int|
        #![trigger changes[i]]
        0 <= i < changes.len() ==> {
            &&& as_str(at(changes[i], "kind"@)) is None
            &&& as_str(at(at(changes[i], "textDocument"@), "uri"@)) == Some(files[i].0)
            &&& at(changes[i], "edits"@) == files[i].1
        }
}

proof fn lemma_changes_agree(changes: Seq<JsonView>, files: Seq<(Seq<char>, JsonView)>)
    requires
        same_changes(changes, files),
        forall|i: int, j: int|
            #![trigger files[i], files[j]]
            0 <= i < j < files.len() ==> files[i].0 != files[j].0,
    ensures
        document_changes(changes) == plain_changes(files),
        match plain_changes(files) {
            Ok(m) => forall|k: Seq<char>| #[trigger] m.contains_key(k) ==> has_key(files, k),
            Err(_) => true,
        },
    decreases files.len(),
{
    if files.len() > 0 {
        let c = changes.drop_last();
        let f = files.drop_last();
        assert forall|i: int| #![trigger c[i]] 0 <= i < c.len() implies {
            &&& as_str(at(c[i], "kind"@)) is None
            &&& as_str(at(at(c[i], "textDocument"@), "uri"@)) == Some(f[i].0)
            &&& at(c[i], "edits"@) == f[i].1
        } by {
            assert(c[i] == changes[i]);
        }
        assert forall|i: int, j: int|
            #![trigger f[i], f[j]]
            0 <= i < j < f.len() implies f[i].0 != f[j].0 by {
            assert(f[i] == files[i] && f[j] == files[j]);
        }
        lemma_changes_agree(c, f);
        let last = files.len() - 1;
        assert(changes.last() == changes[last]);
        assert(files.last() == files[last]);
        if let Ok(m) = plain_changes(f) {
            assert(!m.contains_key(files[last].0)) by {
                if m.contains_key(files[last].0) {
                    let i = choose|i: int| 0 <= i < f.len() && f[i].0 == files[last].0;
                    assert(files[i].0 != files[last].0);
                }
            }
            if let Ok(all) = plain_changes(files) {
                assert forall|k: Seq<char>| #[trigger] all.contains_key(k) implies has_key(
                    files,
                    k,
                ) by {
                    if k != files[last].0 {
                        assert(m.contains_key(k));
                        let i = choose|i: int| 0 <= i < f.len() && f[i].0 == k;
                        assert(files[i].0 == k);
                    } else {
                        assert(files[last].0 == k);
                    }
                }
            }
        }
    }
}

/// The two encodings of one set of edits hold the same edits: a plain map, and a
/// list with one document change for each of its documents.
pub proof fn lemma_encodings_agree(
    plain: JsonView,
    versioned: JsonView,
    m: Map<Seq<char>, JsonView>,
    changes: Seq<JsonView>,
)
    requires
        m.dom().finite(),
        get(plain, "documentChanges"@) is None,
        get(plain, "changes"@) == Some(JsonView::Object(m)),
        get(versioned, "documentChanges"@) == Some(JsonView::Array(changes)),
        same_changes(changes, listing(m)),
    ensures
        collected(plain) == collected(versioned),
{
    let files = listing(m);
    lemma_listed(m);
    assert forall|i: int, j: int|
        #![trigger files[i], files[j]]
        0 <= i < j < files.len() implies files[i].0 != files[j].0 by {
        lemma_text_irreflexive(files[i].0);
    }
    lemma_changes_agree(changes, files);
}

// ---------------------------------------------------------------------------
// What holds of edits by document
// ---------------------------------------------------------------------------

/// One more document change adds its edits behind those that its document has, and
/// leaves every other document alone.
pub proof fn lemma_document_change_adds(
    changes: Seq<JsonView>,
    change: JsonView,
    before: Map<Seq<char>, Seq<TextEditView>>,
    uri: Seq<char>,
    edits: Seq<TextEditView>,
)
    requires
        document_changes(changes) == Ok::<Map<Seq<char>, Seq<TextEditView>>, Seq<char>>(before),
        at(change, "kind"@) == JsonView::Null,
        at(at(change, "textDocument"@), "uri"@) == JsonView::Text(uri),
        edits_in(at(change, "edits"@)) == Ok::<Seq<TextEditView>, Seq<char>>(edits),
    ensures
        match document_changes(changes.push(change)) {
            Ok(after) => {
                &&& after.contains_key(uri)
                &&& before.contains_key(uri) ==> after[uri] == before[uri] + edits
                &&& !before.contains_key(uri) ==> after[uri] == edits
                &&& forall|other: Seq<char>|
                    other != uri ==> (#[trigger] after.contains_key(other)
                        <==> before.contains_key(other)) && (before.contains_key(other)
                        ==> after[other] == before[other])
            },
            Err(_) => false,
        },
{
    assert(changes.push(change).drop_last() =~= changes);
}

/// A document change that names no document, or whose edits are none, refuses the whole.
pub proof fn lemma_broken_changes_refused(changes: Seq<JsonView>, change: JsonView)
    requires
        !(at(at(change, "textDocument"@), "uri"@) is Text) || edits_in(
            at(change, "edits"@),
        ) is Err,
    ensures
        document_changes(changes.push(change)) is Err,
{
    assert(changes.push(change).drop_last() =~= changes);
}

proof fn lemma_plain_by_document(files: Seq<(Seq<char>, JsonView)>)
    requires
        forall|i: int, j: int|
            #![trigger files[i], files[j]]
            0 <= i < j < files.len() ==> files[i].0 != files[j].0,
    ensures
        match plain_changes(files) {
            Ok(m) => {
                &&& forall|k: Seq<char>| #[trigger] m.contains_key(k) ==> has_key(files, k)
                &&& forall|i: int|
                    #![trigger files[i]]
                    0 <= i < files.len() ==> m.contains_key(files[i].0) && edits_in(files[i].1)
                        == Ok::<Seq<TextEditView>, Seq<char>>(m[files[i].0])
            },
            Err(_) => exists|i: int|
                0 <= i < files.len() && edits_in((#[trigger] files[i]).1) is Err,
        },
    decreases files.len(),
{
    if files.len() > 0 {
        let f = files.drop_last();
        let last = files.len() - 1;
        assert forall|i: int, j: int|
            #![trigger f[i], f[j]]
            0 <= i < j < f.len() implies f[i].0 != f[j].0 by {
            assert(f[i] == files[i] && f[j] == files[j]);
        }
        lemma_plain_by_document(f);
        assert(files.last() == files[last]);
        match plain_changes(f) {
            Ok(m) => {
                if let Ok(all) = plain_changes(files) {
                    assert forall|k: Seq<char>| #[trigger] all.contains_key(k) implies has_key(
                        files,
                        k,
                    ) by {
                        if k != files[last].0 {
                            assert(m.contains_key(k));
                            let i = choose|i: int| 0 <= i < f.len() && f[i].0 == k;
                            assert(files[i].0 == k);
                        } else {
                            assert(files[last].0 == k);
                        }
                    }
                    assert forall|i: int|
                        #![trigger files[i]]
                        0 <= i < files.len() implies all.contains_key(files[i].0) && edits_in(
                        files[i].1,
                    ) == Ok::<Seq<TextEditView>, Seq<char>>(all[files[i].0]) by {
                        if i < last {
                            assert(f[i] == files[i]);
                            assert(files[i].0 != files[last].0);
                        }
                    }
                }
            },
            Err(_) => {
                let i = choose|i: int| 0 <= i < f.len() && edits_in((#[trigger] f[i]).1) is Err;
                assert(files[i] == f[i]);
            },
        }
    }
}

/// A plain edit holds for each document exactly the edits that stand under its name, and
/// no other document; it is refused exactly where the edits of one are none.
pub proof fn lemma_plain_edits_by_document(edit: JsonView, files: Map<Seq<char>, JsonView>)
    requires
        files.dom().finite(),
        get(edit, "documentChanges"@) is None,
        get(edit, "changes"@) == Some(JsonView::Object(files)),
    ensures
        match collected(edit) {
            Ok(m) => {
                &&& m.dom() == files.dom()
                &&& forall|uri: Seq<char>| #[trigger]
                    files.contains_key(uri) ==> edits_in(files[uri]) == Ok::<
                        Seq<TextEditView>,
                        Seq<char>,
                    >(m[uri])
            },
            Err(_) => exists|uri: Seq<char>| #[trigger]
                files.contains_key(uri) && edits_in(files[uri]) is Err,
        },
{
    let list = listing(files);
    lemma_listed(files);
    assert forall|i: int, j: int|
        #![trigger list[i], list[j]]
        0 <= i < j < list.len() implies list[i].0 != list[j].0 by {
        lemma_text_irreflexive(list[i].0);
    }
    lemma_plain_by_document(list);
    match plain_changes(list) {
        Ok(m) => {
            assert forall|uri: Seq<char>| #[trigger] files.contains_key(uri) implies m.contains_key(
                uri,
            ) && edits_in(files[uri]) == Ok::<Seq<TextEditView>, Seq<char>>(m[uri]) by {
                assert(has_key(list, uri));
                let i = choose|i: int| 0 <= i < list.len() && list[i].0 == uri;
                assert(list[i].0 == uri);
            }
            assert forall|uri: Seq<char>| #[trigger] m.contains_key(uri) implies files.contains_key(
                uri,
            ) by {
                let i = choose|i: int| 0 <= i < list.len() && list[i].0 == uri;
                assert(list[i].0 == uri);
            }
            assert(m.dom() =~= files.dom());
        },
        Err(_) => {
            let i = choose|i: int| 0 <= i < list.len() && edits_in((#[trigger] list[i]).1) is Err;
            assert(files.contains_key(list[i].0));
        },
    }
}

/// Where the server has nothing to change, nothing is changed.
pub proof fn lemma_no_edit_changes_nothing(edit: JsonView)
    requires
        get(edit, "documentChanges"@) is None,
        get(edit, "changes"@) is None,
    ensures
        collected(edit) == Ok::<Map<Seq<char>, Seq<TextEditView>>, Seq<char>>(Map::empty()),
        collected(JsonView::Null) == Ok::<Map<Seq<char>, Seq<TextEditView>>, Seq<char>>(
            Map::empty(),
        ),
{
}

/// The changed files are named in order, each as often as the edit has it.
pub proof fn lemma_changed_files_in_order(files: Seq<(Seq<char>, Seq<TextEditView>)>)
    ensures
        ({
            let paths = sorted_by(file_paths(files), text_order());
            &&& paths.len() == files.len()
            &&& forall|i: int, j: int|
                #![trigger paths[i], paths[j]]
                0 <= i < j < paths.len() ==> paths[i] == paths[j] || text_less(paths[i], paths[j])
            &&& forall|k: int|
                0 <= k < files.len() ==> paths.contains(path_of((#[trigger] files[k]).0))
        }),
{
    let less = text_order();
    assert(is_order(less)) by {
        assert forall|a: Seq<char>, b: Seq<char>| #[trigger] less(a, b) implies !less(b, a) by {
            lemma_text_irreflexive(a);
            if text_less(b, a) {
                lemma_text_transitive(a, b, a);
            }
        }
        assert forall|a: Seq<char>, b: Seq<char>, c: Seq<char>|
            #![trigger less(b, a), less(c, b)]
            !less(b, a) && !less(c, b) implies !less(c, a) by {
            lemma_text_total(a, b);
            lemma_text_total(b, c);
            lemma_text_irreflexive(a);
            if text_less(c, a) {
                if text_less(a, b) {
                    lemma_text_transitive(c, a, b);
                }
            }
        }
    }
    let made = file_paths(files);
    let paths = sorted_by(made, less);
    lemma_sorted_by(made, less);
    made.to_multiset_ensures();
    paths.to_multiset_ensures();
    assert forall|i: int, j: int|
        #![trigger paths[i], paths[j]]
        0 <= i < j < paths.len() implies paths[i] == paths[j] || text_less(paths[i], paths[j]) by {
        assert(!less(paths[j], paths[i]));
        lemma_text_total(paths[i], paths[j]);
    }
    assert forall|k: int| 0 <= k < files.len() implies paths.contains(
        path_of((#[trigger] files[k]).0),
    ) by {
        assert(made[k] == path_of(files[k].0));
        assert(made.contains(made[k]));
        assert(made.to_multiset().contains(made[k]));
    }
}

} // verus!
