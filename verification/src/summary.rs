//! What a workspace edit changes, line by line.

use vstd::prelude::*;
use vstd::string::StringSliceAdditionalSpecFns;
use vstd::utf8::{decode_utf8, encode_utf8};

use crate::apply::{
    applicable, edit_views, line_starts, starts_of, try_apply_text_edits, TextEdit,
    TextEditView,
};
use crate::blocks::{
    block_bytes, block_end, content_end, lemma_block, lemma_block_valid, lemma_line_bounds,
    lemma_line_content, line_start, line_stop, tied, touches,
};
use crate::order::{in_order, is_order, lemma_sorted_by, slotted, sorted_by};
use crate::path::{lemma_path_order, path_before, path_less};
use crate::regions::{
    lemma_regions, region_views, regions, regions_between, regions_of, weave, Region,
};
use crate::text::{owned, same_text, text_from_utf8};

verus! {

/// One changed line: its file, its number from zero, and its text before and after.
/// A line that is gone, because it was joined to one before it, has no text after.
#[derive(Debug)]
pub struct Row {
    pub path: String,
    pub line: usize,
    pub before: String,
    pub after: Option<String>,
}

/// What a row says.
pub struct RowView {
    pub path: Seq<char>,
    pub line: nat,
    pub before: Seq<char>,
    pub after: Option<Seq<char>>,
}

impl View for Row {
    type V = RowView;

    open spec fn view(&self) -> RowView {
        RowView {
            path: self.path@,
            line: self.line as nat,
            before: self.before@,
            after: match self.after {
                Some(a) => Some(a@),
                None => None,
            },
        }
    }
}

/// What a list of rows says.
pub open spec fn row_views(rows: Seq<Row>) -> Seq<RowView> {
    rows.map_values(|r: Row| r@)
}

// ---------------------------------------------------------------------------
// One line
// ---------------------------------------------------------------------------

/// A line of a text, without its terminator.
pub open spec fn line_text(text: Seq<char>, line: int) -> Seq<char> {
    let t = encode_utf8(text);
    decode_utf8(t.subrange(line_start(t, line), line_stop(t, line)))
}

/// The line of that number, without its terminator.
fn line_at(text: &str, starts: &Vec<usize>, line: usize) -> (r: String)
    requires
        starts@ == starts_of(encode_utf8(text@)),
        line < starts@.len(),
    ensures
        r@ == line_text(text@, line as int),
{
    let bytes: &[u8] = text.as_bytes();
    let size: usize = bytes.len();
    let ghost t = bytes@;
    proof {
        vstd::utf8::encode_utf8_valid_utf8(text@);
        lemma_line_content(t, line as int);
    }
    let start: usize = starts[line];
    let stop: usize = if line < starts.len() - 1 {
        starts[line + 1]
    } else {
        size
    };
    let mut end: usize = stop;
    if end > start && bytes[end - 1] == 10 {
        end = end - 1;
        if end > start && bytes[end - 1] == 13 {
            end = end - 1;
        }
    } else if end > start && bytes[end - 1] == 13 {
        end = end - 1;
    }
    assert(end == content_end(t, start as int, stop as int));
    let (head, _) = text.split_at(end);
    proof {
        vstd::utf8::encode_utf8_valid_utf8(head@);
        vstd::utf8::is_char_boundary_start_end_of_seq(head.spec_bytes());
        if start < end {
            assert(head.spec_bytes()[start as int] == t[start as int]);
            vstd::utf8::is_char_boundary_iff_not_is_continuation_byte(t, start as int);
            vstd::utf8::is_char_boundary_iff_not_is_continuation_byte(
                head.spec_bytes(),
                start as int,
            );
        }
    }
    let (_, tail) = head.split_at(start);
    proof {
        assert(tail.spec_bytes() =~= t.subrange(start as int, end as int));
        vstd::utf8::encode_utf8_decode_utf8(tail@);
    }
    tail.to_owned()
}

// ---------------------------------------------------------------------------
// The rows of a file
// ---------------------------------------------------------------------------

/// The text of one file and its edits.
#[derive(Debug)]
pub struct FileChange {
    pub path: String,
    pub text: String,
    pub edits: Vec<TextEdit>,
}

/// A file's change.
pub struct FileChangeView {
    pub path: Seq<char>,
    pub text: Seq<char>,
    pub edits: Seq<TextEditView>,
}

impl View for FileChange {
    type V = FileChangeView;

    open spec fn view(&self) -> FileChangeView {
        FileChangeView { path: self.path@, text: self.text@, edits: edit_views(self.edits@) }
    }
}

/// What a list of changes means.
pub open spec fn change_views(files: Seq<FileChange>) -> Seq<FileChangeView> {
    files.map_values(|f: FileChange| f@)
}

/// A line as the edits leave it: the block that it begins, or nothing where it is
/// joined to the line before it.
pub open spec fn line_after(f: FileChangeView, line: int) -> Option<Seq<char>> {
    let t = encode_utf8(f.text);
    let list = regions_of(f.text, f.edits);
    if tied(t, list, line) {
        None
    } else {
        Some(decode_utf8(block_bytes(t, list, line)))
    }
}

/// The rows of the lines below `n` that the edits change.
pub open spec fn rows_below(f: FileChangeView, n: nat) -> Seq<RowView>
    decreases n,
{
    if n == 0 {
        Seq::empty()
    } else {
        let before = rows_below(f, (n - 1) as nat);
        let line = n - 1;
        if line_after(f, line) == Some(line_text(f.text, line)) {
            before
        } else {
            before.push(
                RowView {
                    path: f.path,
                    line: line as nat,
                    before: line_text(f.text, line),
                    after: line_after(f, line),
                },
            )
        }
    }
}

/// How many lines a text has.
pub open spec fn line_count(text: Seq<char>) -> nat {
    starts_of(encode_utf8(text)).len()
}

/// Where the content of a line ends.
fn stop_of(bytes: &[u8], starts: &Vec<usize>, line: usize) -> (r: usize)
    requires
        bytes@.len() <= usize::MAX,
        starts@ == starts_of(bytes@),
        line < starts@.len(),
    ensures
        r == line_stop(bytes@, line as int),
        line_start(bytes@, line as int) <= r <= bytes@.len(),
{
    proof {
        lemma_line_bounds(bytes@, line as int);
    }
    let start: usize = starts[line];
    let mut end: usize = if line < starts.len() - 1 {
        starts[line + 1]
    } else {
        bytes.len()
    };
    if end > start && bytes[end - 1] == 10 {
        end = end - 1;
        if end > start && bytes[end - 1] == 13 {
            end = end - 1;
        }
    } else if end > start && bytes[end - 1] == 13 {
        end = end - 1;
    }
    end
}

/// Whether a line is joined to the one before it.
fn is_tied(bytes: &[u8], starts: &Vec<usize>, list: &Vec<Region>, line: usize) -> (r: bool)
    requires
        bytes@.len() <= usize::MAX,
        starts@ == starts_of(bytes@),
    ensures
        r == tied(bytes@, region_views(list@), line as int),
{
    if line == 0 || line >= starts.len() {
        return false;
    }
    let stop: usize = stop_of(bytes, starts, line - 1);
    let next: usize = starts[line];
    let ghost all = region_views(list@);
    let mut i: usize = 0;
    while i < list.len()
        invariant
            i <= list@.len(),
            all == region_views(list@),
            0 < line < starts_of(bytes@).len(),
            stop == line_stop(bytes@, line - 1),
            next == line_start(bytes@, line as int),
            forall|k: int|
                0 <= k < i ==> !touches(#[trigger] all[k], stop as int, next as int),
        decreases list@.len() - i,
    {
        assert(all[i as int] == list@[i as int]@);
        if list[i].start < next && stop < list[i].end {
            assert(touches(all[i as int], stop as int, next as int));
            return true;
        }
        i += 1;
    }
    false
}

/// A line as the edits leave it.
fn after_of(f: &FileChange, starts: &Vec<usize>, list: &Vec<Region>, line: usize) -> (r: Option<
    String,
>)
    requires
        applicable(f@.text, f@.edits),
        starts@ == starts_of(encode_utf8(f.text@)),
        region_views(list@) == regions_of(f@.text, f@.edits),
        line < starts@.len(),
    ensures
        match r {
            Some(a) => line_after(f@, line as int) == Some(a@),
            None => line_after(f@, line as int) is None,
        },
{
    let bytes: &[u8] = f.text.as_str().as_bytes();
    let size: usize = bytes.len();
    let ghost t = bytes@;
    let ghost all = region_views(list@);
    if is_tied(bytes, starts, list, line) {
        return None;
    }
    proof {
        lemma_regions(f@.text, f@.edits);
        lemma_block(t, all, line as int);
        lemma_block_valid(t, all, line as int);
    }
    let count: usize = starts.len();
    let mut end: usize = line + 1;
    while is_tied(bytes, starts, list, end)
        invariant
            t == bytes@,
            t.len() <= usize::MAX,
            starts@ == starts_of(t),
            all == region_views(list@),
            line < end <= count == starts@.len(),
            block_end(t, all, end - 1) == block_end(t, all, line as int),
        decreases starts@.len() - end,
    {
        end = end + 1;
    }
    let lo: usize = starts[line];
    let hi: usize = stop_of(bytes, starts, end - 1);
    let local = regions_between(list, lo, hi);
    let after = weave(bytes, lo, hi, &local);
    match text_from_utf8(after) {
        Ok(a) => Some(a),
        Err(_) => None,
    }
}

/// Adds the rows of one file; false where its edits cannot be applied.
fn add_rows(out: &mut Vec<Row>, f: &FileChange) -> (r: bool)
    requires
        rows_numbered(old(out)@),
    ensures
        rows_numbered(final(out)@),
        r == applicable(f@.text, f@.edits),
        r ==> row_views(final(out)@) == row_views(old(out)@) + rows_below(
            f@,
            line_count(f.text@),
        ),
{
    if try_apply_text_edits(f.text.as_str(), &f.edits).is_none() {
        return false;
    }
    let ghost before = row_views(out@);
    let starts = line_starts(f.text.as_str());
    let list = regions(f.text.as_str(), &f.edits);
    let mut line: usize = 0;
    assert(row_views(out@) =~= before + rows_below(f@, 0));
    while line < starts.len()
        invariant
            line <= starts@.len(),
            starts@ == starts_of(encode_utf8(f.text@)),
            applicable(f@.text, f@.edits),
            region_views(list@) == regions_of(f@.text, f@.edits),
            row_views(out@) == before + rows_below(f@, line as nat),
            rows_numbered(out@),
        decreases starts@.len() - line,
    {
        let old_line = line_at(f.text.as_str(), &starts, line);
        let new_line = after_of(f, &starts, &list, line);
        let same = match &new_line {
            Some(a) => same_text(a.as_str(), old_line.as_str()),
            None => false,
        };
        if !same {
            let ghost so_far = out@;
            let ghost found = rows_below(f@, line as nat);
            let row = Row {
                path: owned(f.path.as_str()),
                line,
                before: old_line,
                after: new_line,
            };
            let ghost v = row@;
            out.push(row);
            assert(row_views(out@) =~= row_views(so_far).push(v));
            assert(row_views(out@) =~= before + found.push(v));
        }
        line += 1;
    }
    true
}

// ---------------------------------------------------------------------------
// The rows of a workspace edit
// ---------------------------------------------------------------------------

/// The rows of a list of files, file by file.
pub open spec fn all_rows(files: Seq<FileChangeView>) -> Seq<RowView>
    decreases files.len(),
{
    if files.len() == 0 {
        Seq::empty()
    } else {
        all_rows(files.drop_last()) + rows_below(files.last(), line_count(files.last().text))
    }
}

/// How many edits a list of files has.
pub open spec fn edit_count(files: Seq<FileChangeView>) -> nat
    decreases files.len(),
{
    if files.len() == 0 {
        0
    } else {
        edit_count(files.drop_last()) + files.last().edits.len()
    }
}

/// Whether one row comes before another: by path, and then by line.
pub open spec fn row_less(a: RowView, b: RowView) -> bool {
    path_less(a.path, b.path) || (!path_less(b.path, a.path) && a.line < b.line)
}

/// The order of rows.
pub open spec fn row_order() -> spec_fn(RowView, RowView) -> bool {
    |a: RowView, b: RowView| row_less(a, b)
}

/// What a workspace edit changes: how many files, how many edits, and the changed
/// lines in order.
#[derive(Debug)]
pub struct Summary {
    pub files: usize,
    pub edits: u64,
    pub rows: Vec<Row>,
}

/// Whether every file's edits can be applied to it.
pub open spec fn summarizable(files: Seq<FileChangeView>) -> bool {
    forall|i: int| 0 <= i < files.len() ==> takes_edits(#[trigger] files[i])
}

/// Whether a file's edits can be applied to it.
pub open spec fn takes_edits(f: FileChangeView) -> bool {
    applicable(f.text, f.edits)
}

/// Whether the lines of rows can be counted from one.
pub open spec fn rows_numbered(rows: Seq<Row>) -> bool {
    forall|k: int| 0 <= k < rows.len() ==> (#[trigger] rows[k]).line < usize::MAX
}

/// Puts a row in its place.
fn slot_row(list: &mut Vec<Row>, row: Row)
    requires
        rows_numbered(old(list)@),
        row.line < usize::MAX,
    ensures
        row_views(final(list)@) == slotted(row_views(old(list)@), row@, row_order()),
        rows_numbered(final(list)@),
{
    let ghost before = list@;
    let ghost all = row_views(before);
    let mut k: usize = list.len();
    let ghost mut moved: Seq<RowView> = Seq::empty();
    assert(all.take(k as int) =~= all);
    while k > 0 && (path_before(row.path.as_str(), list[k - 1].path.as_str()) || (!path_before(
        list[k - 1].path.as_str(),
        row.path.as_str(),
    ) && row.line < list[k - 1].line))
        invariant
            list@ == before,
            all == row_views(before),
            k <= before.len(),
            moved == all.skip(k as int),
            slotted(all, row@, row_order()) == slotted(all.take(k as int), row@, row_order())
                + moved,
        decreases k,
    {
        proof {
            let part = all.take(k as int);
            assert(part.last() == before[k - 1]@);
            assert(part.drop_last() =~= all.take(k - 1));
            let now = all.skip(k - 1);
            assert(now =~= seq![part.last()] + moved);
            assert(slotted(part, row@, row_order()) + moved =~= slotted(
                part.drop_last(),
                row@,
                row_order(),
            ) + now);
            moved = now;
        }
        k -= 1;
    }
    let ghost part = all.take(k as int);
    proof {
        if k > 0 {
            assert(part.last() == before[k - 1]@);
        }
        assert(slotted(part, row@, row_order()) == part.push(row@));
    }
    let ghost v = row@;
    list.insert(k, row);
    assert(row_views(list@) =~= part.push(v) + moved);
}

/// Sorts rows by path and line.
fn sort_rows(rows: Vec<Row>) -> (r: Vec<Row>)
    requires
        rows_numbered(rows@),
    ensures
        row_views(r@) == sorted_by(row_views(rows@), row_order()),
        rows_numbered(r@),
{
    let ghost all = row_views(rows@);
    let ghost given = rows@;
    let mut out: Vec<Row> = Vec::new();
    assert(row_views(out@) =~= all.take(0));
    for row in it: rows
        invariant
            it.seq() == given,
            all == row_views(given),
            rows_numbered(given),
            rows_numbered(out@),
            row_views(out@) == sorted_by(all.take(it.index() as int), row_order()),
    {
        proof {
            let part = all.take(it.index() + 1);
            assert(part.last() == row@);
            assert(part.drop_last() =~= all.take(it.index() as int));
        }
        slot_row(&mut out, row);
    }
    assert(all.take(all.len() as int) =~= all);
    out
}

/// Summarizes what edits do to the files that they are for; nothing where edits
/// on one line overlap so that they cannot be applied.
pub fn summarize_workspace_edit(files: &Vec<FileChange>) -> (r: Option<Summary>)
    ensures
        r is Some <==> summarizable(change_views(files@)) && edit_count(change_views(files@))
            <= u64::MAX,
        r matches Some(s) ==> {
            &&& s.files == files@.len()
            &&& s.edits == edit_count(change_views(files@))
            &&& row_views(s.rows@) == sorted_by(all_rows(change_views(files@)), row_order())
            &&& rows_numbered(s.rows@)
        },
{
    let ghost all = change_views(files@);
    let mut rows: Vec<Row> = Vec::new();
    let mut edits: u64 = 0;
    let mut i: usize = 0;
    assert(row_views(rows@) =~= all_rows(all.take(0)));
    while i < files.len()
        invariant
            i <= files@.len(),
            all == change_views(files@),
            forall|k: int| 0 <= k < i ==> takes_edits(#[trigger] all[k]),
            edits == edit_count(all.take(i as int)),
            row_views(rows@) == all_rows(all.take(i as int)),
            rows_numbered(rows@),
        decreases files@.len() - i,
    {
        proof {
            let part = all.take(i + 1);
            assert(part.last() == files@[i as int]@);
            assert(part.drop_last() =~= all.take(i as int));
            assert(all[i as int] == files@[i as int]@);
            lemma_edit_count(all, i + 1);
        }
        if !add_rows(&mut rows, &files[i]) {
            assert(!takes_edits(all[i as int]));
            return None;
        }
        let n: u64 = files[i].edits.len() as u64;
        assert(all[i as int].edits.len() == n);
        if n > u64::MAX - edits {
            return None;
        }
        edits = edits + n;
        i += 1;
    }
    assert(all.take(i as int) =~= all);
    Some(Summary { files: files.len(), edits, rows: sort_rows(rows) })
}

/// The first files have no more edits than all.
proof fn lemma_edit_count(files: Seq<FileChangeView>, k: int)
    requires
        0 <= k <= files.len(),
    ensures
        edit_count(files.take(k)) <= edit_count(files),
    decreases files.len(),
{
    if k == files.len() {
        assert(files.take(k) =~= files);
    } else {
        lemma_edit_count(files.drop_last(), k);
        assert(files.drop_last().take(k) =~= files.take(k));
    }
}

/// Rows are ordered by path and line.
proof fn lemma_row_order()
    ensures
        is_order(row_order()),
{
    let less = row_order();
    assert forall|a: RowView, b: RowView| #[trigger] less(a, b) implies !less(b, a) by {
        lemma_path_order(a.path, b.path, a.path);
    }
    assert forall|a: RowView, b: RowView, c: RowView|
        #![trigger less(b, a), less(c, b)]
        !less(b, a) && !less(c, b) implies !less(c, a) by {
        lemma_path_order(a.path, b.path, c.path);
        lemma_path_order(b.path, c.path, a.path);
        lemma_path_order(c.path, a.path, b.path);
        lemma_path_order(b.path, a.path, c.path);
        lemma_path_order(c.path, b.path, a.path);
        lemma_path_order(a.path, c.path, b.path);
    }
}

/// The rows of a summary are those of its files, in the order of path and line.
pub proof fn lemma_rows_in_order(files: Seq<FileChangeView>)
    ensures
        in_order(sorted_by(all_rows(files), row_order()), row_order()),
        sorted_by(all_rows(files), row_order()).to_multiset() == all_rows(files).to_multiset(),
{
    lemma_row_order();
    lemma_sorted_by(all_rows(files), row_order());
}

/// A row shows a line that changes: its text differs before and after.
pub proof fn lemma_rows_change(f: FileChangeView, n: nat)
    ensures
        forall|k: int|
            #![trigger rows_below(f, n)[k]]
            0 <= k < rows_below(f, n).len() ==> {
                let r = rows_below(f, n)[k];
                &&& r.after != Some(r.before)
                &&& r.path == f.path
                &&& r.line < n
                &&& r.before == line_text(f.text, r.line as int)
                &&& r.after == line_after(f, r.line as int)
            },
        forall|line: int|
            #![trigger line_after(f, line)]
            0 <= line < n && line_after(f, line) != Some(line_text(f.text, line)) ==> rows_below(
                f,
                n,
            ).contains(
                RowView {
                    path: f.path,
                    line: line as nat,
                    before: line_text(f.text, line),
                    after: line_after(f, line),
                },
            ),
    decreases n,
{
    if n > 0 {
        let m = (n - 1) as nat;
        lemma_rows_change(f, m);
        let before = rows_below(f, m);
        let all = rows_below(f, n);
        assert forall|line: int|
            #![trigger line_after(f, line)]
            0 <= line < n && line_after(f, line) != Some(line_text(f.text, line)) implies all.contains(
            RowView {
                path: f.path,
                line: line as nat,
                before: line_text(f.text, line),
                after: line_after(f, line),
            },
        ) by {
            let r = RowView {
                path: f.path,
                line: line as nat,
                before: line_text(f.text, line),
                after: line_after(f, line),
            };
            if line < m {
                assert(before.contains(r));
                let k = choose|k: int| 0 <= k < before.len() && before[k] == r;
                assert(all[k] == r);
            } else {
                assert(all[all.len() - 1] == r);
            }
        }
        assert forall|k: int| #![trigger all[k]] 0 <= k < all.len() implies {
            let r = all[k];
            &&& r.after != Some(r.before)
            &&& r.path == f.path
            &&& r.line < n
            &&& r.before == line_text(f.text, r.line as int)
            &&& r.after == line_after(f, r.line as int)
        } by {
            if k < before.len() {
                assert(all[k] == before[k]);
            }
        }
    }
}

/// The rows of one file, and its edits.
proof fn lemma_one_file(f: FileChangeView)
    ensures
        all_rows(seq![f]) == rows_below(f, line_count(f.text)),
        edit_count(seq![f]) == f.edits.len(),
{
    let none = seq![f].drop_last();
    assert(none.len() == 0);
    assert(seq![f].last() == f);
    assert(all_rows(none) =~= Seq::empty());
    assert(edit_count(none) == 0);
    let rows = rows_below(f, line_count(f.text));
    assert(all_rows(seq![f]) == all_rows(none) + rows);
    assert(all_rows(none) + rows =~= rows);
}

proof fn lemma_more_files(a: Seq<FileChangeView>, b: Seq<FileChangeView>)
    ensures
        all_rows(a + b) == all_rows(a) + all_rows(b),
        edit_count(a + b) == edit_count(a) + edit_count(b),
    decreases b.len(),
{
    if b.len() > 0 {
        let less = b.drop_last();
        let last = rows_below(b.last(), line_count(b.last().text));
        assert((a + b).drop_last() =~= a + less);
        assert((a + b).last() == b.last());
        lemma_more_files(a, less);
        assert(all_rows(a + b) == all_rows(a + less) + last);
        assert(all_rows(b) == all_rows(less) + last);
        assert((all_rows(a) + all_rows(less)) + last =~= all_rows(a) + (all_rows(less) + last));
    } else {
        assert(a + b =~= a);
        assert(all_rows(b) =~= Seq::empty());
        assert(all_rows(a) + all_rows(b) =~= all_rows(a));
    }
}

/// The rows of several files are the rows of each, and their edits are counted together.
pub proof fn lemma_files_add_up(a: Seq<FileChangeView>, b: Seq<FileChangeView>, f: FileChangeView)
    ensures
        all_rows(a + b) == all_rows(a) + all_rows(b),
        all_rows(seq![f]) == rows_below(f, line_count(f.text)),
        edit_count(a + b) == edit_count(a) + edit_count(b),
        edit_count(seq![f]) == f.edits.len(),
{
    lemma_one_file(f);
    lemma_more_files(a, b);
}

/// The rows of a result come by path, and those of one file from its top to its bottom.
pub proof fn lemma_rows_by_path_and_line(files: Seq<FileChangeView>, i: int, j: int)
    requires
        0 <= i < j < sorted_by(all_rows(files), row_order()).len(),
    ensures
        ({
            let a = sorted_by(all_rows(files), row_order())[i];
            let b = sorted_by(all_rows(files), row_order())[j];
            &&& !path_less(b.path, a.path)
            &&& a.path == b.path ==> a.line <= b.line
        }),
{
    lemma_rows_in_order(files);
    let rows = sorted_by(all_rows(files), row_order());
    let less = row_order();
    assert(!less(rows[j], rows[i]));
    assert(!row_less(rows[j], rows[i]));
    crate::path::lemma_path_order(rows[i].path, rows[i].path, rows[i].path);
}

} // verus!
