//! Lines, and the lines that edits join.
//!
//! A line ends in its terminator. Where edits touch a terminator, the line and the
//! next are one block; where they do not, the line stays apart.

use vstd::prelude::*;
use vstd::utf8::{is_char_boundary, valid_utf8};

use crate::apply::{
    descending, is_line_start, lemma_boundary_after_ascii, lemma_line_start_boundary,
    lemma_starts_below, line_end, starts_of, woven, Splice,
};
use crate::regions::{
    all_lifted, between, inside, lemma_between_all, lemma_between_descending,
    lemma_between_members, lemma_from_line, lemma_woven_lifted, lemma_woven_split,
};

verus! {

// ---------------------------------------------------------------------------
// Lines
// ---------------------------------------------------------------------------

/// Where the content of the line from `start` to `end` ends: before its terminator.
pub open spec fn content_end(t: Seq<u8>, start: int, end: int) -> int {
    if end > start && t[end - 1] == 10 {
        if end - 1 > start && t[end - 2] == 13 {
            end - 2
        } else {
            end - 1
        }
    } else if end > start && t[end - 1] == 13 {
        end - 1
    } else {
        end
    }
}

/// Where a line begins.
pub open spec fn line_start(t: Seq<u8>, line: int) -> int {
    starts_of(t)[line] as int
}

/// Where the content of a line ends.
pub open spec fn line_stop(t: Seq<u8>, line: int) -> int {
    content_end(t, line_start(t, line), line_end(t, starts_of(t), line))
}

/// How the content of a line lies: behind it comes its terminator, or the end.
pub proof fn lemma_line_bounds(t: Seq<u8>, line: int)
    requires
        t.len() <= usize::MAX,
        0 <= line < starts_of(t).len(),
    ensures
        0 <= line_start(t, line) <= line_stop(t, line) <= line_end(t, starts_of(t), line)
            <= t.len(),
        line + 1 < starts_of(t).len() ==> line_end(t, starts_of(t), line) == line_start(t, line + 1)
            && line_stop(t, line) < line_start(t, line + 1),
        line + 1 == starts_of(t).len() ==> line_end(t, starts_of(t), line) == t.len()
            && line_stop(t, line) == t.len(),
{
    let starts = starts_of(t);
    lemma_starts_below(t, t.len() + 1);
    assert(is_line_start(t, starts[line] as int));
    if line + 1 < starts.len() {
        assert(starts[line] < starts[line + 1]);
        assert(is_line_start(t, starts[line + 1] as int));
    } else {
        let stop = line_stop(t, line);
        if stop < t.len() {
            assert(is_line_start(t, t.len() as int));
            let k = choose|k: int| 0 <= k < starts.len() && starts[k] == t.len() as usize;
            assert(starts.contains(t.len() as usize));
            if k < line {
                assert(starts[k] < starts[line]);
            }
        }
    }
}

/// A text has a first line, and it begins at the beginning.
proof fn lemma_first_line(t: Seq<u8>)
    requires
        t.len() <= usize::MAX,
    ensures
        starts_of(t).len() > 0,
        line_start(t, 0) == 0,
{
    let starts = starts_of(t);
    lemma_starts_below(t, t.len() + 1);
    assert(is_line_start(t, 0));
    assert(starts.contains(0usize));
    let k = choose|k: int| 0 <= k < starts.len() && starts[k] == 0usize;
    if k > 0 {
        assert(starts[0] < starts[k]);
    }
}

/// Where the content of a line lies: in the text, between character boundaries.
pub proof fn lemma_line_content(t: Seq<u8>, line: int)
    requires
        valid_utf8(t),
        t.len() <= usize::MAX,
        0 <= line < starts_of(t).len(),
    ensures
        ({
            let start = starts_of(t)[line] as int;
            let end = content_end(t, start, line_end(t, starts_of(t), line));
            &&& 0 <= start <= end <= line_end(t, starts_of(t), line) <= t.len()
            &&& is_char_boundary(t, start)
            &&& is_char_boundary(t, end)
        }),
{
    let starts = starts_of(t);
    lemma_starts_below(t, t.len() + 1);
    let start = starts[line] as int;
    let stop = line_end(t, starts, line);
    assert(is_line_start(t, start));
    lemma_line_start_boundary(t, start);
    vstd::utf8::is_char_boundary_start_end_of_seq(t);
    if line + 1 < starts.len() {
        assert(starts[line] < starts[line + 1]);
        assert(is_line_start(t, stop));
        lemma_line_start_boundary(t, stop);
    }
    let end = content_end(t, start, stop);
    if end < stop {
        vstd::utf8::is_char_boundary_iff_not_is_continuation_byte(t, end);
    }
}

// ---------------------------------------------------------------------------
// Blocks
// ---------------------------------------------------------------------------

/// Whether a region touches the terminator from `stop` to `next`.
pub open spec fn touches(r: Splice, stop: int, next: int) -> bool {
    r.start < next && stop < r.end
}

/// Whether a line is joined to the one before it: a region touches the terminator
/// between them.
pub open spec fn tied(t: Seq<u8>, list: Seq<Splice>, line: int) -> bool {
    &&& 0 < line < starts_of(t).len()
    &&& exists|i: int|
        0 <= i < list.len() && touches(
            #[trigger] list[i],
            line_stop(t, line - 1),
            line_start(t, line),
        )
}

/// The first line behind the block that a line is in.
pub open spec fn block_end(t: Seq<u8>, list: Seq<Splice>, line: int) -> int
    decreases starts_of(t).len() - line,
{
    if tied(t, list, line + 1) {
        block_end(t, list, line + 1)
    } else {
        line + 1
    }
}

/// A block from its first line to the content of its last, with the regions in it
/// in place.
pub open spec fn block_bytes(t: Seq<u8>, list: Seq<Splice>, line: int) -> Seq<u8> {
    let lo = line_start(t, line);
    let hi = line_stop(t, block_end(t, list, line) - 1);
    woven(t.subrange(lo, hi), all_lifted(between(list, lo, hi), lo), 0)
}

/// The text from a line on, with the regions from there on in place.
pub open spec fn rest_from(t: Seq<u8>, list: Seq<Splice>, line: int) -> Seq<u8> {
    let lo = line_start(t, line);
    woven(t, between(list, lo, t.len() as int), lo)
}

/// The lines of a block behind its first are tied, and the one behind it is not.
pub proof fn lemma_block_end(t: Seq<u8>, list: Seq<Splice>, line: int)
    requires
        0 <= line < starts_of(t).len(),
    ensures
        line < block_end(t, list, line) <= starts_of(t).len(),
        !tied(t, list, block_end(t, list, line)),
    decreases starts_of(t).len() - line,
{
    if tied(t, list, line + 1) {
        lemma_block_end(t, list, line + 1);
    }
}

/// The lines between two lines do not reach behind the second.
proof fn lemma_starts_ascend(t: Seq<u8>, a: int, b: int)
    requires
        t.len() <= usize::MAX,
        0 <= a <= b < starts_of(t).len(),
    ensures
        line_start(t, a) <= line_start(t, b) <= line_stop(t, b),
{
    lemma_starts_below(t, t.len() + 1);
    lemma_line_bounds(t, b);
    if a < b {
        assert(starts_of(t)[a] < starts_of(t)[b]);
    }
}

/// What is read from offset `lo` on, where no region reaches over it: the part up
/// to the end of a line, the line's terminator, and what is read from the next on.
proof fn lemma_read(t: Seq<u8>, list: Seq<Splice>, lo: int, last: int)
    requires
        t.len() <= usize::MAX,
        descending(list),
        inside(t, list),
        0 <= last < starts_of(t).len(),
        0 <= lo <= line_stop(t, last),
        forall|i: int| 0 <= i < list.len() ==> (#[trigger] list[i]).end <= lo || lo <= list[i].start,
        !tied(t, list, last + 1),
    ensures
        ({
            let hi = line_stop(t, last);
            let end = line_end(t, starts_of(t), last);
            let tail = if last + 1 < starts_of(t).len() {
                rest_from(t, list, last + 1)
            } else {
                Seq::empty()
            };
            woven(t, between(list, lo, t.len() as int), lo) == woven(
                t.subrange(lo, hi),
                all_lifted(between(list, lo, hi), lo),
                0,
            ) + t.subrange(hi, end) + tail
        }),
        inside(
            t.subrange(lo, line_stop(t, last)),
            all_lifted(between(list, lo, line_stop(t, last)), lo),
        ),
        descending(all_lifted(between(list, lo, line_stop(t, last)), lo)),
{
    let top = t.len() as int;
    let hi = line_stop(t, last);
    let end = line_end(t, starts_of(t), last);
    let more = last + 1 < starts_of(t).len();
    let next = if more {
        end
    } else {
        top + 1
    };
    lemma_line_bounds(t, last);
    assert forall|i: int| 0 <= i < list.len() implies (#[trigger] list[i]).start <= top && (
    list[i].start < lo || list[i].start <= hi || next <= list[i].start) && (next
        <= list[i].start || list[i].end <= hi) by {
        if more {
            assert(!touches(list[i], hi, line_start(t, last + 1)));
        }
    }
    lemma_from_line(list, lo, hi, next, top);
    let upper = between(list, next, top);
    let lower = between(list, lo, hi);
    lemma_between_members(list, next, top);
    lemma_between_members(list, lo, hi);
    lemma_between_descending(list, lo, hi);
    assert forall|k: int| 0 <= k < lower.len() implies lo <= (#[trigger] lower[k]).start
        && lower[k].end <= hi by {
        let m = choose|m: int| 0 <= m < list.len() && list[m] == lower[k];
        assert(list[m].end <= hi || next <= list[m].start);
    }
    if upper.len() > 0 {
        assert(upper.last() == upper[upper.len() - 1]);
        let m = choose|m: int| 0 <= m < list.len() && list[m] == upper.last();
        assert(list[m].start <= list[m].end);
    }
    lemma_woven_split(t, upper, lower, lo, hi, end);
    lemma_woven_lifted(t, lower, lo, hi, lo);
    if !more {
        assert(upper.len() == 0);
        assert(woven(t, upper, end) =~= Seq::empty());
    }
    let part = t.subrange(lo, hi);
    let up = all_lifted(lower, lo);
    assert forall|i: int| #![trigger up[i]] 0 <= i < up.len() implies 0 <= up[i].start
        && up[i].end <= part.len() && up[i].start <= up[i].end by {
        assert(up[i].start == lower[i].start - lo);
    }
    assert forall|i: int, j: int|
        #![trigger up[i], up[j]]
        0 <= i < j < up.len() implies up[j].end <= up[i].start by {
        assert(lower[j].end <= lower[i].start);
    }
}

/// No region reaches over the start of a line that is not tied.
proof fn lemma_untied(t: Seq<u8>, list: Seq<Splice>, line: int)
    requires
        t.len() <= usize::MAX,
        inside(t, list),
        0 <= line < starts_of(t).len(),
        !tied(t, list, line),
    ensures
        forall|i: int|
            0 <= i < list.len() ==> (#[trigger] list[i]).end <= line_start(t, line) || line_start(
                t,
                line,
            ) <= list[i].start,
{
    if line == 0 {
        lemma_first_line(t);
    } else {
        lemma_line_bounds(t, line - 1);
        assert forall|i: int| 0 <= i < list.len() implies (#[trigger] list[i]).end <= line_start(
            t,
            line,
        ) || line_start(t, line) <= list[i].start by {
            assert(!touches(list[i], line_stop(t, line - 1), line_start(t, line)));
        }
    }
}

/// Reading from the first line of a block on gives the block, the terminator of
/// its last line, and what is read from the line behind it on.
pub proof fn lemma_block(t: Seq<u8>, list: Seq<Splice>, line: int)
    requires
        t.len() <= usize::MAX,
        descending(list),
        inside(t, list),
        0 <= line < starts_of(t).len(),
        !tied(t, list, line),
    ensures
        ({
            let end = block_end(t, list, line);
            let hi = line_stop(t, end - 1);
            &&& line < end <= starts_of(t).len()
            &&& !tied(t, list, end)
            &&& line_start(t, line) <= hi <= line_end(t, starts_of(t), end - 1) <= t.len()
            &&& rest_from(t, list, line) == block_bytes(t, list, line) + t.subrange(
                hi,
                line_end(t, starts_of(t), end - 1),
            ) + (if end < starts_of(t).len() {
                rest_from(t, list, end)
            } else {
                Seq::empty()
            })
            &&& inside(
                t.subrange(line_start(t, line), hi),
                all_lifted(between(list, line_start(t, line), hi), line_start(t, line)),
            )
            &&& descending(
                all_lifted(between(list, line_start(t, line), hi), line_start(t, line)),
            )
        }),
{
    lemma_block_end(t, list, line);
    let end = block_end(t, list, line);
    lemma_line_bounds(t, end - 1);
    lemma_line_bounds(t, line);
    lemma_starts_ascend(t, line, end - 1);
    lemma_untied(t, list, line);
    lemma_read(t, list, line_start(t, line), end - 1);
}

/// Reading from the first line on is reading the text.
pub proof fn lemma_rest_from_first(t: Seq<u8>, list: Seq<Splice>)
    requires
        t.len() <= usize::MAX,
        descending(list),
        inside(t, list),
    ensures
        starts_of(t).len() > 0,
        !tied(t, list, 0),
        rest_from(t, list, 0) == woven(t, list, 0),
{
    lemma_first_line(t);
    assert forall|k: int| 0 <= k < list.len() implies 0 <= (#[trigger] list[k]).start
        <= t.len() by {
        assert(list[k].start <= list[k].end);
    }
    lemma_between_all(list, 0, t.len() as int);
}

/// What is read from a line that is not tied on is a text, and so is its block.
pub proof fn lemma_block_valid(t: Seq<u8>, list: Seq<Splice>, line: int)
    requires
        t.len() <= usize::MAX,
        descending(list),
        inside(t, list),
        0 <= line < starts_of(t).len(),
        !tied(t, list, line),
        valid_utf8(woven(t, list, 0)),
    ensures
        valid_utf8(rest_from(t, list, line)),
        valid_utf8(block_bytes(t, list, line)),
{
    let whole = woven(t, list, 0);
    let rest = rest_from(t, list, line);
    lemma_rest_from_first(t, list);
    if line > 0 {
        lemma_line_bounds(t, line - 1);
        lemma_starts_below(t, t.len() + 1);
        let hi = line_stop(t, line - 1);
        let next = line_start(t, line);
        assert(is_line_start(t, next));
        lemma_read(t, list, 0, line - 1);
        lemma_between_all(list, 0, t.len() as int);
        let head = woven(t.subrange(0, hi), all_lifted(between(list, 0, hi), 0), 0) + t.subrange(
            hi,
            next,
        );
        assert(whole == head + rest);
        let at = head.len() as int;
        assert(whole[at - 1] == t[next - 1]);
        lemma_boundary_after_ascii(whole, at);
        vstd::utf8::valid_utf8_split(whole, at);
        assert(whole.subrange(at, whole.len() as int) =~= rest);
    }
    lemma_block(t, list, line);
    let end = block_end(t, list, line);
    let hi = line_stop(t, end - 1);
    let bytes = block_bytes(t, list, line);
    lemma_line_bounds(t, end - 1);
    vstd::utf8::is_char_boundary_start_end_of_seq(rest);
    if bytes.len() < rest.len() {
        if end < starts_of(t).len() {
            assert(rest[bytes.len() as int] == t[hi]);
            vstd::utf8::is_char_boundary_iff_not_is_continuation_byte(rest, bytes.len() as int);
        }
    }
    vstd::utf8::valid_utf8_split(rest, bytes.len() as int);
    assert(rest.subrange(0, bytes.len() as int) =~= bytes);
}

/// Between the beginnings of a line and of the next none begins.
proof fn lemma_no_start_between(t: Seq<u8>, line: int, i: int)
    requires
        t.len() <= usize::MAX,
        0 <= line < starts_of(t).len(),
        line_start(t, line) < i < line_end(t, starts_of(t), line),
    ensures
        !is_line_start(t, i),
{
    let starts = starts_of(t);
    lemma_starts_below(t, t.len() + 1);
    if is_line_start(t, i) {
        assert(starts.contains(i as usize));
        let k = choose|k: int| 0 <= k < starts.len() && starts[k] == i as usize;
        if k < line {
            assert(starts[k] < starts[line]);
        }
        if line + 1 < starts.len() && k > line + 1 {
            assert(starts[line + 1] < starts[k]);
        }
    }
}

/// The content of a line holds no byte of a terminator; and behind it stands a newline, a
/// carriage return, both, or the end of the text.
pub proof fn lemma_lines_hold_no_terminators(t: Seq<u8>, line: int)
    requires
        t.len() <= usize::MAX,
        0 <= line < starts_of(t).len(),
    ensures
        ({
            let start = line_start(t, line);
            let stop = line_stop(t, line);
            let rest = t.subrange(stop, line_end(t, starts_of(t), line));
            &&& forall|i: int| start <= i < stop ==> #[trigger] t[i] != 10 && t[i] != 13
            &&& rest == seq![10u8] || rest == seq![13u8] || rest == seq![13u8, 10u8]
                || rest.len() == 0 && stop == t.len()
        }),
{
    let starts = starts_of(t);
    let start = line_start(t, line);
    let stop = line_stop(t, line);
    let end = line_end(t, starts, line);
    lemma_line_bounds(t, line);
    lemma_starts_below(t, t.len() + 1);
    if line + 1 < starts.len() {
        assert(is_line_start(t, starts[line + 1] as int));
    }
    assert forall|i: int| start <= i < stop implies #[trigger] t[i] != 10 && t[i] != 13 by {
        if t[i] == 10 || t[i] == 13 {
            if i + 1 < end {
                lemma_no_start_between(t, line, i + 1);
                assert(t[i] == 13 && t[i + 1] == 10);
                if i + 2 < end {
                    lemma_no_start_between(t, line, i + 2);
                }
            }
        }
    }
    let rest = t.subrange(stop, end);
    if end == stop + 2 {
        assert(rest =~= seq![13u8, 10u8]);
    } else if end == stop + 1 {
        assert(rest =~= seq![t[stop]]);
    }
}

} // verus!
