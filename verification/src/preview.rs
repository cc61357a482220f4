//! What a preview shows is what applying does.
//!
//! A summary speaks of lines, applying of the whole text. The two agree: the edited
//! text is the old one with each row's line replaced by what the row shows, and a
//! terminator kept wherever the line behind it is not gone.

use vstd::prelude::*;
use vstd::utf8::encode_utf8;

use crate::apply::{applicable, edited, line_end, starts_of, Splice};
use crate::blocks::{
    block_bytes, block_end, lemma_block, lemma_block_end, lemma_block_valid, lemma_line_bounds,
    lemma_rest_from_first, line_start, line_stop, rest_from, tied,
};
use crate::regions::{all_lifted, between, lemma_between_members, lemma_regions, regions_of};
use crate::summary::{
    lemma_rows_change, line_after, line_count, line_text, rows_below, FileChangeView, RowView,
};

verus! {

/// Whether a row is about that line.
pub open spec fn has_row(rows: Seq<RowView>, line: int) -> bool {
    exists|i: int| 0 <= i < rows.len() && (#[trigger] rows[i]).line == line
}

/// A line as rows show it: what its row says, and its old text where it has none.
pub open spec fn shown_line(text: Seq<char>, rows: Seq<RowView>, line: int) -> Option<Seq<char>> {
    if has_row(rows, line) {
        rows[choose|i: int| 0 <= i < rows.len() && (#[trigger] rows[i]).line == line].after
    } else {
        Some(line_text(text, line))
    }
}

/// The terminator of a line.
pub open spec fn terminator(t: Seq<u8>, line: int) -> Seq<u8> {
    t.subrange(line_stop(t, line), line_end(t, starts_of(t), line))
}

/// The text from a line on, put together from rows: each line as they show it, and
/// behind it its terminator, unless the next line is gone.
pub open spec fn put_together(text: Seq<char>, rows: Seq<RowView>, line: int) -> Seq<u8>
    decreases line_count(text) - line,
{
    if line < 0 || line >= line_count(text) {
        Seq::empty()
    } else {
        (match shown_line(text, rows, line) {
            Some(a) => encode_utf8(a),
            None => Seq::empty(),
        }) + (if line + 1 < line_count(text) && shown_line(text, rows, line + 1) is None {
            Seq::empty()
        } else {
            terminator(encode_utf8(text), line)
        }) + put_together(text, rows, line + 1)
    }
}

/// The rows of a file show each of its lines as the edits leave it.
proof fn lemma_shown_line(f: FileChangeView, line: int)
    requires
        0 <= line < line_count(f.text),
    ensures
        shown_line(f.text, rows_below(f, line_count(f.text)), line) == line_after(f, line),
{
    let rows = rows_below(f, line_count(f.text));
    lemma_rows_change(f, line_count(f.text));
    if has_row(rows, line) {
        let i = choose|i: int| 0 <= i < rows.len() && (#[trigger] rows[i]).line == line;
        assert(rows[i].after == line_after(f, line));
    } else if line_after(f, line) != Some(line_text(f.text, line)) {
        let r = RowView {
            path: f.path,
            line: line as nat,
            before: line_text(f.text, line),
            after: line_after(f, line),
        };
        assert(rows.contains(r));
        let i = choose|i: int| 0 <= i < rows.len() && rows[i] == r;
        assert(rows[i].line == line);
    }
}

/// From a line on, what is put together is what is read; from a line that is gone
/// on, it is the terminator of the last line of its block and what follows.
proof fn lemma_put_together(f: FileChangeView, line: int)
    requires
        encode_utf8(f.text).len() <= usize::MAX,
        applicable(f.text, f.edits),
        0 <= line < line_count(f.text),
    ensures
        ({
            let t = encode_utf8(f.text);
            let list = regions_of(f.text, f.edits);
            let rows = rows_below(f, line_count(f.text));
            let end = block_end(t, list, line);
            if tied(t, list, line) {
                put_together(f.text, rows, line) == terminator(t, end - 1) + put_together(
                    f.text,
                    rows,
                    end,
                )
            } else {
                put_together(f.text, rows, line) == rest_from(t, list, line)
            }
        }),
    decreases line_count(f.text) - line,
{
    let t = encode_utf8(f.text);
    let list = regions_of(f.text, f.edits);
    let rows = rows_below(f, line_count(f.text));
    let n = line_count(f.text) as int;
    let end = block_end(t, list, line);
    let joined = tied(t, list, line + 1);
    lemma_regions(f.text, f.edits);
    lemma_block_end(t, list, line);
    lemma_shown_line(f, line);
    if line + 1 < n {
        lemma_shown_line(f, line + 1);
        lemma_put_together(f, line + 1);
    }
    let below = put_together(f.text, rows, line + 1);
    // What stands behind the line's own text, either way.
    let tail = terminator(t, end - 1) + put_together(f.text, rows, end);
    assert((if joined {
        Seq::empty()
    } else {
        terminator(t, line)
    }) + below =~= tail);
    if tied(t, list, line) {
        assert(put_together(f.text, rows, line) =~= tail);
    } else {
        lemma_block(t, list, line);
        lemma_block_valid(t, list, line);
        vstd::utf8::decode_utf8_encode_utf8(block_bytes(t, list, line));
        if end < n {
            lemma_put_together(f, end);
        }
        assert(put_together(f.text, rows, line) =~= block_bytes(t, list, line) + tail);
        assert(rest_from(t, list, line) =~= block_bytes(t, list, line) + tail);
    }
}

/// A preview shows what applying writes: the text put together from the rows of a
/// file is the text with its edits applied, whatever the edits are, as long as they
/// can be applied. Edits of which no two touch always can.
pub proof fn lemma_preview_is_applied(f: FileChangeView)
    requires
        encode_utf8(f.text).len() <= usize::MAX,
        applicable(f.text, f.edits),
    ensures
        put_together(f.text, rows_below(f, line_count(f.text)), 0) == edited(f.text, f.edits),
{
    let t = encode_utf8(f.text);
    let list = regions_of(f.text, f.edits);
    lemma_regions(f.text, f.edits);
    lemma_rest_from_first(t, list);
    lemma_put_together(f, 0);
}

/// Whether a change lies clear of a line: before the end of the line above, or at or
/// behind the beginning of the line below.
pub open spec fn lies_clear(t: Seq<u8>, r: Splice, line: int) -> bool {
    ||| line > 0 && r.end <= line_stop(t, line - 1)
    ||| line + 1 < starts_of(t).len() && r.start >= line_start(t, line + 1)
}

/// A line that the edits leave alone has no row: the text it shows is the text it had.
pub proof fn lemma_untouched_lines_have_no_row(f: FileChangeView, line: int)
    requires
        encode_utf8(f.text).len() <= usize::MAX,
        applicable(f.text, f.edits),
        0 <= line < line_count(f.text),
        forall|k: int|
            0 <= k < regions_of(f.text, f.edits).len() ==> lies_clear(
                encode_utf8(f.text),
                #[trigger] regions_of(f.text, f.edits)[k],
                line,
            ),
    ensures
        line_after(f, line) == Some(line_text(f.text, line)),
        !has_row(rows_below(f, line_count(f.text)), line),
{
    let t = encode_utf8(f.text);
    let list = regions_of(f.text, f.edits);
    lemma_regions(f.text, f.edits);
    lemma_line_bounds(t, line);
    if line > 0 {
        lemma_line_bounds(t, line - 1);
    }
    assert forall|k: int| 0 <= k < list.len() implies {
        let r = #[trigger] list[k];
        r.start <= r.end && (line > 0 && r.end <= line_stop(t, line - 1) || line + 1 < starts_of(
            t,
        ).len() && r.start >= line_start(t, line + 1))
    } by {
        assert(lies_clear(t, list[k], line));
    }
    assert(!tied(t, list, line));
    assert(!tied(t, list, line + 1));
    let lo = line_start(t, line);
    let hi = line_stop(t, line);
    lemma_between_members(list, lo, hi);
    let some = between(list, lo, hi);
    assert(some.len() == 0) by {
        if some.len() > 0 {
            assert(list.contains(some[0]));
            let k = choose|k: int| 0 <= k < list.len() && list[k] == some[0];
            assert(lies_clear(t, list[k], line));
        }
    }
    assert(all_lifted(some, lo).len() == 0);
    assert(block_bytes(t, list, line) =~= t.subrange(lo, hi));
    lemma_rows_change(f, line_count(f.text));
    let rows = rows_below(f, line_count(f.text));
    if has_row(rows, line) {
        let i = choose|i: int| 0 <= i < rows.len() && (#[trigger] rows[i]).line == line;
        assert(rows[i].after != Some(rows[i].before));
    }
}

/// A line is shown as gone exactly where a change reaches over the end of the line above
/// into it.
pub proof fn lemma_gone_lines(f: FileChangeView, line: int)
    requires
        0 < line < line_count(f.text),
    ensures
        line_after(f, line) is None <==> exists|k: int|
            0 <= k < regions_of(f.text, f.edits).len() && (#[trigger] regions_of(
                f.text,
                f.edits,
            )[k]).end > line_stop(encode_utf8(f.text), line - 1) && regions_of(
                f.text,
                f.edits,
            )[k].start < line_start(encode_utf8(f.text), line),
{
}

} // verus!
