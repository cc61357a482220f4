//! Where edits change a text.
//!
//! Edits become regions: spans of the text, one below the other, with what stands
//! in their place. Edits that eat into what others put in are one region, and what
//! an edit puts back as it was is no part of a region.

use vstd::prelude::*;
use vstd::string::StringSliceAdditionalSpecFns;
use vstd::utf8::{encode_utf8, valid_utf8};

use crate::apply::{
    all_fit, applicable, bottom_up, cut, descending, edit_views, edited, lemma_edited_valid,
    lemma_placed_members, lemma_woven_prefix, ordered_pieces, patched, piece_views, placed,
    splice_of, splices_of, woven, Piece, Splice, TextEdit, TextEditView,
};

verus! {

// ---------------------------------------------------------------------------
// What regions are
// ---------------------------------------------------------------------------

/// Regions with one more splice of the text that they leave, at or above the start
/// of the lowest. What the splice takes away of a region's text is gone from it.
pub open spec fn absorbed(list: Seq<Splice>, s: Splice) -> Seq<Splice>
    decreases list.len(),
{
    if list.len() == 0 || s.end <= list.last().start {
        list.push(s)
    } else {
        let r = list.last();
        let taken = s.end - r.start;
        if taken <= r.text.len() {
            list.drop_last().push(
                Splice { start: s.start, end: r.end, text: s.text + r.text.skip(taken) },
            )
        } else {
            absorbed(
                list.drop_last(),
                Splice { start: s.start, end: r.end + taken - r.text.len(), text: s.text },
            )
        }
    }
}

/// The regions that splices leave, made one after the other.
pub open spec fn merged(list: Seq<Splice>) -> Seq<Splice>
    decreases list.len(),
{
    if list.len() == 0 {
        list
    } else {
        absorbed(merged(list.drop_last()), list.last())
    }
}

/// How many bytes two texts begin with alike.
pub open spec fn shared_head(a: Seq<u8>, b: Seq<u8>) -> nat
    decreases a.len(),
{
    if a.len() > 0 && b.len() > 0 && a[0] == b[0] {
        1 + shared_head(a.drop_first(), b.drop_first())
    } else {
        0
    }
}

/// How many bytes two texts end in alike.
pub open spec fn shared_tail(a: Seq<u8>, b: Seq<u8>) -> nat
    decreases a.len(),
{
    if a.len() > 0 && b.len() > 0 && a.last() == b.last() {
        1 + shared_tail(a.drop_last(), b.drop_last())
    } else {
        0
    }
}

/// A region without what it leaves as it was at its start and its end.
pub open spec fn narrowed(t: Seq<u8>, r: Splice) -> Splice {
    let p = shared_head(t.subrange(r.start, r.end), r.text) as int;
    let rest = r.text.skip(p);
    let q = shared_tail(t.subrange(r.start + p, r.end), rest) as int;
    Splice { start: r.start + p, end: r.end - q, text: rest.take(rest.len() - q) }
}

/// Whether a region changes nothing.
pub open spec fn is_void(r: Splice) -> bool {
    r.start == r.end && r.text.len() == 0
}

/// The regions that change something, each as narrow as it can be.
pub open spec fn effective(t: Seq<u8>, list: Seq<Splice>) -> Seq<Splice>
    decreases list.len(),
{
    if list.len() == 0 {
        list
    } else {
        let before = effective(t, list.drop_last());
        let r = narrowed(t, list.last());
        if is_void(r) {
            before
        } else {
            before.push(r)
        }
    }
}

/// Where edits change a text, from its bottom to its top.
pub open spec fn regions_of(text: Seq<char>, edits: Seq<TextEditView>) -> Seq<Splice> {
    let t = encode_utf8(text);
    effective(t, merged(bottom_up(splices_of(t, edits))))
}

/// Whether every region lies in the text.
pub open spec fn inside(t: Seq<u8>, list: Seq<Splice>) -> bool {
    forall|i: int|
        #![trigger list[i]]
        0 <= i < list.len() ==> 0 <= list[i].start && list[i].end <= t.len()
}

// ---------------------------------------------------------------------------
// Regions leave what the edits leave
// ---------------------------------------------------------------------------

/// What stands above the lowest splice lies behind its end.
proof fn lemma_descending_rest(list: Seq<Splice>)
    requires
        descending(list),
        list.len() > 0,
    ensures
        descending(list.drop_last()),
        forall|k: int|
            0 <= k < list.len() - 1 ==> list.last().end <= (#[trigger] list.drop_last()[k]).start,
{
    let rest = list.drop_last();
    assert forall|i: int, j: int|
        #![trigger rest[i], rest[j]]
        0 <= i < j < rest.len() implies rest[j].end <= rest[i].start by {
        assert(rest[i] == list[i] && rest[j] == list[j]);
    }
    assert forall|i: int| 0 <= i < rest.len() implies (#[trigger] rest[i]).start
        <= rest[i].end by {
        assert(rest[i] == list[i]);
    }
    assert forall|k: int| 0 <= k < rest.len() implies list.last().end <= (#[trigger] rest[k]).start by {
        assert(rest[k] == list[k]);
        assert(list.last() == list[list.len() - 1]);
    }
}

/// One more region below the others.
proof fn lemma_descending_push(list: Seq<Splice>, s: Splice)
    requires
        descending(list),
        s.start <= s.end,
        list.len() > 0 ==> s.end <= list.last().start,
    ensures
        descending(list.push(s)),
{
    let all = list.push(s);
    assert forall|i: int, j: int|
        #![trigger all[i], all[j]]
        0 <= i < j < all.len() implies all[j].end <= all[i].start by {
        assert(all[i] == list[i]);
        if j < list.len() {
            assert(all[j] == list[j]);
        } else if i < list.len() - 1 {
            assert(list[list.len() - 1].end <= list[i].start);
        }
    }
    assert forall|i: int| 0 <= i < all.len() implies (#[trigger] all[i]).start <= all[i].end by {
        if i < list.len() {
            assert(all[i] == list[i]);
        }
    }
}

/// Absorbing a splice makes it.
proof fn lemma_absorbed(t: Seq<u8>, list: Seq<Splice>, s: Splice)
    requires
        descending(list),
        inside(t, list),
        0 <= s.start <= s.end <= woven(t, list, 0).len(),
        list.len() > 0 ==> s.start <= list.last().start,
        s.start <= t.len(),
    ensures
        descending(absorbed(list, s)),
        inside(t, absorbed(list, s)),
        absorbed(list, s).len() > 0,
        absorbed(list, s).last().start == s.start,
        woven(t, absorbed(list, s), 0) == cut(woven(t, list, 0), s),
    decreases list.len(),
{
    let w = woven(t, list, 0);
    if list.len() == 0 {
        let all = list.push(s);
        assert(w =~= t);
        assert(all.drop_last() =~= list);
        lemma_descending_push(list, s);
        assert(woven(t, list, s.end) == t.subrange(s.end, t.len() as int));
        assert(woven(t, all, 0) =~= cut(w, s));
    } else if s.end <= list.last().start {
        let all = list.push(s);
        assert(list.last() == list[list.len() - 1]);
        assert(all.drop_last() =~= list);
        lemma_descending_push(list, s);
        lemma_woven_prefix(t, list, 0, s.end);
        assert(w.subrange(s.end, w.len() as int) =~= woven(t, list, s.end));
        assert(w.subrange(0, s.start) =~= t.subrange(0, s.start));
        assert(woven(t, all, 0) =~= cut(w, s));
        assert forall|i: int| #![trigger all[i]] 0 <= i < all.len() implies 0 <= all[i].start
            && all[i].end <= t.len() by {
            if i < list.len() {
                assert(all[i] == list[i]);
            }
        }
    } else {
        let r = list.last();
        let rest = list.drop_last();
        let taken = s.end - r.start;
        assert(r == list[list.len() - 1]);
        lemma_descending_rest(list);
        assert forall|i: int| #![trigger rest[i]] 0 <= i < rest.len() implies 0 <= rest[i].start
            && rest[i].end <= t.len() by {
            assert(rest[i] == list[i]);
        }
        if rest.len() > 0 {
            assert(rest.last() == rest[rest.len() - 1]);
        }
        let tail = woven(t, rest, r.end);
        assert(w == t.subrange(0, r.start) + r.text + tail);
        assert(w.subrange(0, s.start) =~= t.subrange(0, s.start));
        if taken <= r.text.len() {
            let one = Splice { start: s.start, end: r.end, text: s.text + r.text.skip(taken) };
            let all = rest.push(one);
            assert(all.drop_last() =~= rest);
            lemma_descending_push(rest, one);
            assert(w.subrange(s.end, w.len() as int) =~= r.text.skip(taken) + tail);
            assert(woven(t, all, 0) =~= cut(w, s));
            assert forall|i: int| #![trigger all[i]] 0 <= i < all.len() implies 0 <= all[i].start
                && all[i].end <= t.len() by {
                if i < rest.len() {
                    assert(all[i] == rest[i]);
                }
            }
        } else {
            let further = taken - r.text.len();
            let next = Splice { start: s.start, end: r.end + further, text: s.text };
            lemma_woven_prefix(t, rest, 0, r.end);
            let v = woven(t, rest, 0);
            assert(v == t.subrange(0, r.end) + tail);
            lemma_absorbed(t, rest, next);
            assert(v.subrange(0, s.start) =~= t.subrange(0, s.start));
            assert(v.subrange(next.end, v.len() as int) =~= tail.skip(further));
            assert(w.subrange(s.end, w.len() as int) =~= tail.skip(further));
            assert(cut(v, next) =~= cut(w, s));
        }
    }
}

/// Merging splices that can be made, from the bottom up, leaves what they leave.
proof fn lemma_merged(t: Seq<u8>, list: Seq<Splice>)
    requires
        all_fit(t, list),
        falling(list),
        forall|i: int| 0 <= i < list.len() ==> (#[trigger] list[i]).start <= t.len(),
    ensures
        descending(merged(list)),
        inside(t, merged(list)),
        woven(t, merged(list), 0) == patched(t, list),
        merged(list).len() > 0 ==> list.len() > 0 && merged(list).last().start
            == list.last().start,
    decreases list.len(),
{
    if list.len() == 0 {
        assert(woven(t, list, 0) =~= t);
    } else {
        let upper = list.drop_last();
        let s = list.last();
        assert(s == list[list.len() - 1]);
        assert forall|i: int, j: int|
            #![trigger upper[i], upper[j]]
            0 <= i < j < upper.len() implies upper[j].start <= upper[i].start by {
            assert(upper[i] == list[i] && upper[j] == list[j]);
        }
        assert forall|i: int| 0 <= i < upper.len() implies (#[trigger] upper[i]).start
            <= t.len() by {
            assert(upper[i] == list[i]);
        }
        lemma_merged(t, upper);
        if upper.len() > 0 {
            assert(upper.last() == list[list.len() - 2]);
        }
        lemma_absorbed(t, merged(upper), s);
    }
}

/// What two texts begin with alike.
proof fn lemma_shared_head(a: Seq<u8>, b: Seq<u8>)
    ensures
        shared_head(a, b) <= a.len(),
        shared_head(a, b) <= b.len(),
        a.take(shared_head(a, b) as int) == b.take(shared_head(a, b) as int),
    decreases a.len(),
{
    if a.len() > 0 && b.len() > 0 && a[0] == b[0] {
        let x = a.drop_first();
        let y = b.drop_first();
        lemma_shared_head(x, y);
        let n = shared_head(x, y) as int;
        assert(a.take(n + 1) =~= seq![a[0]] + x.take(n));
        assert(b.take(n + 1) =~= seq![b[0]] + y.take(n));
    } else {
        assert(a.take(0) =~= b.take(0));
    }
}

/// What two texts end in alike.
proof fn lemma_shared_tail(a: Seq<u8>, b: Seq<u8>)
    ensures
        shared_tail(a, b) <= a.len(),
        shared_tail(a, b) <= b.len(),
        a.skip(a.len() - shared_tail(a, b)) == b.skip(b.len() - shared_tail(a, b)),
    decreases a.len(),
{
    if a.len() > 0 && b.len() > 0 && a.last() == b.last() {
        let x = a.drop_last();
        let y = b.drop_last();
        lemma_shared_tail(x, y);
        let n = shared_tail(x, y) as int;
        assert(a.skip(a.len() - n - 1) =~= x.skip(x.len() - n).push(a.last()));
        assert(b.skip(b.len() - n - 1) =~= y.skip(y.len() - n).push(b.last()));
    } else {
        assert(a.skip(a.len() as int) =~= b.skip(b.len() as int));
    }
}

/// A narrowed region lies in the region, and around it the region leaves the text
/// as it was.
proof fn lemma_narrowed(t: Seq<u8>, r: Splice)
    requires
        0 <= r.start <= r.end <= t.len(),
    ensures
        r.start <= narrowed(t, r).start <= narrowed(t, r).end <= r.end,
        r.text == t.subrange(r.start, narrowed(t, r).start) + narrowed(t, r).text + t.subrange(
            narrowed(t, r).end,
            r.end,
        ),
{
    let old_text = t.subrange(r.start, r.end);
    lemma_shared_head(old_text, r.text);
    let p = shared_head(old_text, r.text) as int;
    let rest = r.text.skip(p);
    let left = t.subrange(r.start + p, r.end);
    lemma_shared_tail(left, rest);
    let q = shared_tail(left, rest) as int;
    assert(old_text.take(p) =~= t.subrange(r.start, r.start + p));
    assert(left.skip(left.len() - q) =~= t.subrange(r.end - q, r.end));
    assert(r.text =~= r.text.take(p) + rest.take(rest.len() - q) + rest.skip(rest.len() - q));
}

/// Narrowing regions changes nothing of what they leave.
proof fn lemma_effective(t: Seq<u8>, list: Seq<Splice>, from: int)
    requires
        descending(list),
        inside(t, list),
        0 <= from <= t.len(),
        list.len() > 0 ==> from <= list.last().start,
    ensures
        descending(effective(t, list)),
        inside(t, effective(t, list)),
        effective(t, list).len() > 0 ==> list.len() > 0 && list.last().start <= effective(
            t,
            list,
        ).last().start,
        woven(t, effective(t, list), from) == woven(t, list, from),
    decreases list.len(),
{
    if list.len() > 0 {
        let upper = list.drop_last();
        let s = list.last();
        assert(s == list[list.len() - 1]);
        lemma_descending_rest(list);
        assert forall|i: int| #![trigger upper[i]] 0 <= i < upper.len() implies 0
            <= upper[i].start && upper[i].end <= t.len() by {
            assert(upper[i] == list[i]);
        }
        if upper.len() > 0 {
            assert(upper.last() == upper[upper.len() - 1]);
        }
        lemma_effective(t, upper, s.end);
        let e = effective(t, upper);
        let n = narrowed(t, s);
        lemma_narrowed(t, s);
        if e.len() > 0 {
            assert(e.last() == e[e.len() - 1]);
        }
        let tail = woven(t, e, s.end);
        if is_void(n) {
            lemma_woven_prefix(t, e, from, s.end);
            assert(t.subrange(from, s.end) =~= t.subrange(from, s.start) + s.text);
            assert(woven(t, e, from) =~= woven(t, list, from));
        } else {
            let all = e.push(n);
            assert(all.drop_last() =~= e);
            lemma_descending_push(e, n);
            lemma_woven_prefix(t, e, n.end, s.end);
            assert(woven(t, e, n.end) == t.subrange(n.end, s.end) + tail);
            assert(t.subrange(from, n.start) =~= t.subrange(from, s.start) + t.subrange(
                s.start,
                n.start,
            ));
            assert(woven(t, all, from) =~= woven(t, list, from));
            assert forall|i: int| #![trigger all[i]] 0 <= i < all.len() implies 0 <= all[i].start
                && all[i].end <= t.len() by {
                if i < e.len() {
                    assert(all[i] == e[i]);
                }
            }
        }
    }
}

/// Whether starts do not ascend.
pub open spec fn falling(list: Seq<Splice>) -> bool {
    forall|i: int, j: int|
        #![trigger list[i], list[j]]
        0 <= i < j < list.len() ==> list[j].start <= list[i].start
}

/// Placing a splice keeps starts from ascending.
proof fn lemma_placed_falling(list: Seq<Splice>, s: Splice)
    requires
        falling(list),
    ensures
        falling(placed(list, s)),
    decreases list.len(),
{
    if list.len() > 0 && list.last().start < s.start {
        let shorter = list.drop_last();
        let low = list.last();
        assert forall|i: int, j: int|
            #![trigger shorter[i], shorter[j]]
            0 <= i < j < shorter.len() implies shorter[j].start <= shorter[i].start by {
            assert(shorter[i] == list[i] && shorter[j] == list[j]);
        }
        lemma_placed_falling(shorter, s);
        lemma_placed_members(shorter, s);
        let upper = placed(shorter, s);
        let all = upper.push(low);
        assert forall|i: int, j: int|
            #![trigger all[i], all[j]]
            0 <= i < j < all.len() implies all[j].start <= all[i].start by {
            assert(all[i] == upper[i]);
            if j < upper.len() {
                assert(all[j] == upper[j]);
            } else if upper[i] != s {
                let m = choose|m: int| 0 <= m < shorter.len() && shorter[m] == upper[i];
                assert(list[m] == upper[i]);
                assert(low == list[list.len() - 1]);
            }
        }
    } else {
        let all = list.push(s);
        assert forall|i: int, j: int|
            #![trigger all[i], all[j]]
            0 <= i < j < all.len() implies all[j].start <= all[i].start by {
            assert(all[i] == list[i]);
            if j < list.len() {
                assert(all[j] == list[j]);
            } else if i < list.len() - 1 {
                assert(list[list.len() - 1].start <= list[i].start);
            }
        }
    }
}

/// From the bottom up starts do not ascend, and nothing is added.
proof fn lemma_bottom_up_falling(list: Seq<Splice>)
    ensures
        falling(bottom_up(list)),
        forall|k: int|
            0 <= k < bottom_up(list).len() ==> list.contains(#[trigger] bottom_up(list)[k]),
    decreases list.len(),
{
    if list.len() > 0 {
        let shorter = list.drop_last();
        let s = list.last();
        lemma_bottom_up_falling(shorter);
        let upper = bottom_up(shorter);
        lemma_placed_falling(upper, s);
        lemma_placed_members(upper, s);
        let all = bottom_up(list);
        assert forall|k: int| 0 <= k < all.len() implies list.contains(#[trigger] all[k]) by {
            if all[k] != s {
                let m = choose|m: int| 0 <= m < upper.len() && upper[m] == all[k];
                assert(shorter.contains(upper[m]));
                let q = choose|q: int| 0 <= q < shorter.len() && shorter[q] == upper[m];
                assert(list[q] == all[k]);
            } else {
                assert(list[list.len() - 1] == all[k]);
            }
        }
    }
}

/// The regions of edits lie in the text, one below the other, and reading the text
/// with them in place gives what applying the edits gives: a text. Each is as narrow as
/// it can be.
pub proof fn lemma_regions(text: Seq<char>, edits: Seq<TextEditView>)
    requires
        encode_utf8(text).len() <= usize::MAX,
        applicable(text, edits),
    ensures
        descending(regions_of(text, edits)),
        inside(encode_utf8(text), regions_of(text, edits)),
        woven(encode_utf8(text), regions_of(text, edits), 0) == edited(text, edits),
        valid_utf8(edited(text, edits)),
        forall|k: int|
            0 <= k < regions_of(text, edits).len() ==> is_narrow(
                encode_utf8(text),
                #[trigger] regions_of(text, edits)[k],
            ),
{
    let t = encode_utf8(text);
    let list = splices_of(t, edits);
    let sorted = bottom_up(list);
    lemma_bottom_up_falling(list);
    vstd::utf8::encode_utf8_valid_utf8(text);
    assert forall|i: int|
        #![trigger sorted[i]]
        0 <= i < sorted.len() implies 0 <= sorted[i].start <= t.len() && valid_utf8(
        sorted[i].text,
    ) by {
        let m = choose|m: int| 0 <= m < list.len() && list[m] == sorted[i];
        assert(list[m] == splice_of(t, edits[m]));
        crate::apply::lemma_offset_boundary(t, edits[m].range.start);
        vstd::utf8::encode_utf8_valid_utf8(edits[m].new_text);
    }
    lemma_merged(t, sorted);
    let all = merged(sorted);
    if all.len() > 0 {
        assert(all.last() == all[all.len() - 1]);
    }
    lemma_effective(t, all, 0);
    lemma_edited_valid(t, sorted);
    assert forall|k: int| 0 <= k < regions_of(text, edits).len() implies is_narrow(
        t,
        #[trigger] regions_of(text, edits)[k],
    ) by {
        lemma_effective_is_narrow(t, all, k);
    }
}

// ---------------------------------------------------------------------------
// The regions of a part of the text
// ---------------------------------------------------------------------------

/// A region moved up by that many bytes.
pub open spec fn lifted(s: Splice, n: int) -> Splice {
    Splice { start: s.start - n, end: s.end - n, text: s.text }
}

/// Regions moved up by that many bytes.
pub open spec fn all_lifted(list: Seq<Splice>, n: int) -> Seq<Splice> {
    list.map_values(|s: Splice| lifted(s, n))
}

/// The regions that start between two offsets.
pub open spec fn between(list: Seq<Splice>, lo: int, hi: int) -> Seq<Splice>
    decreases list.len(),
{
    if list.len() == 0 {
        Seq::empty()
    } else if lo <= list.last().start <= hi {
        between(list.drop_last(), lo, hi).push(list.last())
    } else {
        between(list.drop_last(), lo, hi)
    }
}

/// What is between two offsets is in the list.
pub proof fn lemma_between_members(list: Seq<Splice>, lo: int, hi: int)
    ensures
        forall|k: int|
            0 <= k < between(list, lo, hi).len() ==> list.contains(
                #[trigger] between(list, lo, hi)[k],
            ) && lo <= between(list, lo, hi)[k].start <= hi,
    decreases list.len(),
{
    if list.len() > 0 {
        let shorter = list.drop_last();
        lemma_between_members(shorter, lo, hi);
        let some = between(list, lo, hi);
        assert forall|k: int| 0 <= k < some.len() implies list.contains(#[trigger] some[k]) && lo
            <= some[k].start <= hi by {
            let before = between(shorter, lo, hi);
            if k < before.len() {
                assert(some[k] == before[k]);
                let m = choose|m: int| 0 <= m < shorter.len() && shorter[m] == before[k];
                assert(list[m] == some[k]);
            } else {
                assert(list[list.len() - 1] == some[k]);
            }
        }
    }
}

/// What is between two offsets is still in descending order.
pub proof fn lemma_between_descending(list: Seq<Splice>, lo: int, hi: int)
    requires
        descending(list),
    ensures
        descending(between(list, lo, hi)),
    decreases list.len(),
{
    if list.len() > 0 {
        let shorter = list.drop_last();
        let x = list.last();
        lemma_descending_rest(list);
        lemma_between_descending(shorter, lo, hi);
        lemma_between_members(shorter, lo, hi);
        let before = between(shorter, lo, hi);
        let some = between(list, lo, hi);
        assert(x == list[list.len() - 1]);
        assert forall|i: int, j: int|
            #![trigger some[i], some[j]]
            0 <= i < j < some.len() implies some[j].end <= some[i].start by {
            assert(some[i] == before[i]);
            if j < before.len() {
                assert(some[j] == before[j]);
            } else {
                assert(shorter.contains(before[i]));
                let m = choose|m: int| 0 <= m < shorter.len() && shorter[m] == before[i];
                assert(shorter[m] == some[i]);
            }
        }
        assert forall|i: int| 0 <= i < some.len() implies (#[trigger] some[i]).start
            <= some[i].end by {
            if i < before.len() {
                assert(some[i] == before[i]);
            }
        }
    }
}

/// Where every splice is between two offsets, choosing those keeps all.
pub proof fn lemma_between_all(list: Seq<Splice>, lo: int, hi: int)
    requires
        forall|k: int| 0 <= k < list.len() ==> lo <= (#[trigger] list[k]).start <= hi,
    ensures
        between(list, lo, hi) == list,
    decreases list.len(),
{
    if list.len() > 0 {
        let shorter = list.drop_last();
        assert forall|k: int| 0 <= k < shorter.len() implies lo <= (#[trigger] shorter[k]).start
            <= hi by {
            assert(shorter[k] == list[k]);
        }
        lemma_between_all(shorter, lo, hi);
        assert(list.last() == list[list.len() - 1]);
        assert(between(list, lo, hi) =~= list);
    } else {
        assert(between(list, lo, hi) =~= list);
    }
}

/// Reading a piece of a text from the line that it lies in.
pub proof fn lemma_woven_lifted(t: Seq<u8>, list: Seq<Splice>, a: int, stop: int, from: int)
    requires
        0 <= a <= from <= stop <= t.len(),
        descending(list),
        forall|k: int| 0 <= k < list.len() ==> from <= (#[trigger] list[k]).start && list[k].end <= stop,
    ensures
        woven(t.take(stop), list, from) == woven(t.subrange(a, stop), all_lifted(list, a), from - a),
    decreases list.len(),
{
    let whole = t.take(stop);
    let piece = t.subrange(a, stop);
    let up = all_lifted(list, a);
    if list.len() == 0 {
        assert(whole.subrange(from, stop) =~= piece.subrange(from - a, stop - a));
    } else {
        let s = list.last();
        let rest = list.drop_last();
        assert(s == list[list.len() - 1]);
        assert(up.last() == lifted(s, a));
        assert(up.drop_last() =~= all_lifted(rest, a));
        assert(whole.subrange(from, s.start) =~= piece.subrange(from - a, s.start - a));
        lemma_descending_rest(list);
        lemma_woven_lifted(t, rest, a, stop, s.end);
    }
}

/// A text whose lower splices end before a place is read up to there and then on.
pub proof fn lemma_woven_split(
    t: Seq<u8>,
    upper: Seq<Splice>,
    lower: Seq<Splice>,
    from: int,
    stop: int,
    next: int,
)
    requires
        0 <= from <= stop <= next <= t.len(),
        descending(lower),
        forall|k: int|
            0 <= k < lower.len() ==> from <= (#[trigger] lower[k]).start && lower[k].end <= stop,
        upper.len() > 0 ==> next <= upper.last().start <= t.len(),
    ensures
        woven(t, upper + lower, from) == woven(t.take(stop), lower, from) + t.subrange(stop, next)
            + woven(t, upper, next),
    decreases lower.len(),
{
    let whole = t.take(stop);
    if lower.len() == 0 {
        assert(upper + lower =~= upper);
        lemma_woven_prefix(t, upper, from, next);
        assert(whole.subrange(from, stop) =~= t.subrange(from, stop));
        assert(t.subrange(from, next) =~= t.subrange(from, stop) + t.subrange(stop, next));
        assert(woven(whole, lower, from) =~= t.subrange(from, stop));
    } else {
        let s = lower.last();
        let rest = lower.drop_last();
        assert(s == lower[lower.len() - 1]);
        lemma_descending_rest(lower);
        assert forall|k: int| 0 <= k < rest.len() implies s.end <= (#[trigger] rest[k]).start
            && rest[k].end <= stop by {
            assert(rest[k] == lower[k]);
        }
        assert(s.start <= s.end);
        lemma_woven_split(t, upper, rest, s.end, stop, next);
        assert((upper + lower).last() == s);
        assert((upper + lower).drop_last() =~= upper + rest);
        assert(whole.subrange(from, s.start) =~= t.subrange(from, s.start));
        let tail = t.subrange(stop, next) + woven(t, upper, next);
        assert(woven(t, upper + lower, from) =~= t.subrange(from, s.start) + s.text + (woven(
            whole,
            rest,
            s.end,
        ) + t.subrange(stop, next) + woven(t, upper, next)));
        assert(woven(whole, lower, from) =~= t.subrange(from, s.start) + s.text + woven(
            whole,
            rest,
            s.end,
        ));
        assert(woven(t, upper + lower, from) =~= woven(whole, lower, from) + t.subrange(stop, next)
            + woven(t, upper, next));
    }
}

/// The splices from a line on are those behind the line and those of the line.
pub proof fn lemma_from_line(list: Seq<Splice>, lo: int, hi: int, next: int, top: int)
    requires
        falling(list),
        lo <= hi < next <= top + 1,
        forall|k: int|
            0 <= k < list.len() ==> (#[trigger] list[k]).start <= top && (list[k].start < lo
                || list[k].start <= hi || next <= list[k].start),
    ensures
        between(list, lo, top) == between(list, next, top) + between(list, lo, hi),
    decreases list.len(),
{
    if list.len() == 0 {
        assert(between(list, next, top) + between(list, lo, hi) =~= between(list, lo, top));
    } else {
        let shorter = list.drop_last();
        let x = list.last();
        assert(x == list[list.len() - 1]);
        assert forall|i: int, j: int|
            #![trigger shorter[i], shorter[j]]
            0 <= i < j < shorter.len() implies shorter[j].start <= shorter[i].start by {
            assert(shorter[i] == list[i] && shorter[j] == list[j]);
        }
        assert forall|k: int| 0 <= k < shorter.len() implies (#[trigger] shorter[k]).start <= top && (
        shorter[k].start < lo || shorter[k].start <= hi || next <= shorter[k].start) by {
            assert(shorter[k] == list[k]);
        }
        lemma_from_line(shorter, lo, hi, next, top);
        let g = between(shorter, next, top);
        let f = between(shorter, lo, hi);
        if x.start >= next {
            lemma_between_members(shorter, lo, hi);
            assert(f.len() == 0) by {
                if f.len() > 0 {
                    assert(shorter.contains(f[0]));
                    let m = choose|m: int| 0 <= m < shorter.len() && shorter[m] == f[0];
                    assert(list[m] == f[0]);
                    assert(list[list.len() - 1].start <= list[m].start);
                }
            }
            assert((g + f).push(x) =~= g.push(x) + f);
        } else if x.start >= lo {
            assert((g + f).push(x) =~= g + f.push(x));
        }
    }
}

// ---------------------------------------------------------------------------
// Finding regions
// ---------------------------------------------------------------------------

/// A span of a text and the bytes that stand in its place.
#[derive(Debug)]
pub struct Region {
    pub start: usize,
    pub end: usize,
    pub text: Vec<u8>,
}

impl View for Region {
    type V = Splice;

    open spec fn view(&self) -> Splice {
        Splice { start: self.start as int, end: self.end as int, text: self.text@ }
    }
}

/// What a list of regions means.
pub open spec fn region_views(list: Seq<Region>) -> Seq<Splice> {
    list.map_values(|r: Region| r@)
}

/// Puts a piece into the regions of the text that it is made in.
fn absorb(t: &[u8], list: &mut Vec<Region>, piece: &Piece)
    requires
        descending(region_views(old(list)@)),
        inside(t@, region_views(old(list)@)),
        piece.start <= piece.end <= woven(t@, region_views(old(list)@), 0).len(),
        piece.start <= t@.len(),
        old(list)@.len() > 0 ==> piece.start <= region_views(old(list)@).last().start,
    ensures
        region_views(final(list)@) == absorbed(region_views(old(list)@), piece@),
{
    let ghost all = region_views(list@);
    let size: usize = t.len();
    let mut text: Vec<u8> = Vec::new();
    text.extend_from_slice(piece.text.as_str().as_bytes());
    assert(text@ =~= piece@.text);
    let mut at: usize = piece.start;
    let mut left: usize = piece.end - piece.start;
    while list.len() > 0 && left > list[list.len() - 1].start - at
        invariant
            all == region_views(old(list)@),
            text@ == piece@.text,
            piece.start <= at <= t@.len(),
            descending(region_views(list@)),
            inside(t@, region_views(list@)),
            list@.len() > 0 ==> at <= region_views(list@).last().start,
            at + left <= woven(t@, region_views(list@), 0).len(),
            absorbed(
                region_views(list@),
                (Splice { start: piece.start as int, end: at + left, text: text@ }),
            ) == absorbed(all, piece@),
        decreases list@.len(),
    {
        let ghost now = region_views(list@);
        let ghost rest = now.drop_last();
        let n: usize = list.len();
        let taken: usize = left - (list[n - 1].start - at);
        proof {
            assert(now.last() == list@[n - 1]@);
            assert(now.last() == now[n - 1]);
            lemma_descending_rest(now);
            assert forall|i: int| #![trigger rest[i]] 0 <= i < rest.len() implies 0
                <= rest[i].start && rest[i].end <= t@.len() by {
                assert(rest[i] == now[i]);
            }
            if rest.len() > 0 {
                assert(rest.last() == rest[rest.len() - 1]);
            }
        }
        let ghost low = now.last();
        match list.pop() {
            Some(r) => {
                assert(r@ == low);
                assert(region_views(list@) =~= rest);
                if taken <= r.text.len() {
                    let mut joined = text;
                    joined.extend_from_slice(
                        vstd::slice::slice_subrange(r.text.as_slice(), taken, r.text.len()),
                    );
                    assert(joined@ =~= piece@.text + r.text@.skip(taken as int));
                    list.push(Region { start: piece.start, end: r.end, text: joined });
                    assert(region_views(list@) =~= rest.push(
                        Splice { start: piece.start as int, end: r.end as int, text: joined@ },
                    ));
                    return ;
                }
                left = taken - r.text.len();
                at = r.end;
                proof {
                    lemma_woven_prefix(t@, rest, 0, low.end);
                }
            },
            None => {},
        }
    }
    proof {
        let now = region_views(list@);
        if now.len() > 0 {
            assert(now.last() == list@[list@.len() - 1]@);
            assert(now.last() == now[now.len() - 1]);
        } else {
            assert(woven(t@, now, 0) =~= t@);
        }
        assert(at + left <= size);
    }
    let ghost now = region_views(list@);
    list.push(Region { start: piece.start, end: at + left, text });
    assert(region_views(list@) =~= now.push(
        Splice { start: piece.start as int, end: at + left, text: piece@.text },
    ));
}

/// How many bytes a part of a text and another text begin with alike.
fn alike_ahead(t: &[u8], from: usize, to: usize, text: &Vec<u8>) -> (p: usize)
    requires
        from <= to <= t@.len(),
    ensures
        p == shared_head(t@.subrange(from as int, to as int), text@),
{
    let ghost part = t@.subrange(from as int, to as int);
    let mut p: usize = 0;
    assert(part.skip(0) =~= part);
    assert(text@.skip(0) =~= text@);
    while p < text.len() && p < to - from && t[from + p] == text[p]
        invariant
            p <= text@.len(),
            p <= to - from,
            from <= to <= t@.len(),
            part == t@.subrange(from as int, to as int),
            p + shared_head(part.skip(p as int), text@.skip(p as int)) == shared_head(part, text@),
        decreases text@.len() - p,
    {
        assert(part.skip(p as int).drop_first() =~= part.skip(p + 1));
        assert(text@.skip(p as int).drop_first() =~= text@.skip(p + 1));
        p += 1;
    }
    p
}

/// How many bytes a part of a text and another text end in alike.
fn alike_behind(t: &[u8], from: usize, to: usize, text: &Vec<u8>) -> (q: usize)
    requires
        from <= to <= t@.len(),
    ensures
        q == shared_tail(t@.subrange(from as int, to as int), text@),
{
    let ghost part = t@.subrange(from as int, to as int);
    let size: usize = text.len();
    let mut q: usize = 0;
    assert(part.take(part.len() as int) =~= part);
    assert(text@.take(text@.len() as int) =~= text@);
    while q < size && q < to - from && t[to - 1 - q] == text[size - 1 - q]
        invariant
            q <= size == text@.len(),
            q <= to - from,
            from <= to <= t@.len(),
            part == t@.subrange(from as int, to as int),
            q + shared_tail(part.take(part.len() - q), text@.take(text@.len() - q)) == shared_tail(
                part,
                text@,
            ),
        decreases size - q,
    {
        assert(part.take(part.len() - q).drop_last() =~= part.take(part.len() - q - 1));
        assert(text@.take(text@.len() - q).drop_last() =~= text@.take(text@.len() - q - 1));
        q += 1;
    }
    q
}

/// A region without what it leaves as it was at its start and its end.
fn narrow(t: &[u8], r: &Region) -> (n: Region)
    requires
        r.start <= r.end <= t@.len(),
    ensures
        n@ == narrowed(t@, r@),
{
    proof {
        lemma_shared_head(t@.subrange(r.start as int, r.end as int), r.text@);
    }
    let p: usize = alike_ahead(t, r.start, r.end, &r.text);
    let mut rest: Vec<u8> = Vec::new();
    rest.extend_from_slice(vstd::slice::slice_subrange(r.text.as_slice(), p, r.text.len()));
    assert(rest@ =~= r.text@.skip(p as int));
    proof {
        lemma_shared_tail(t@.subrange(r.start + p, r.end as int), rest@);
    }
    let q: usize = alike_behind(t, r.start + p, r.end, &rest);
    let mut text: Vec<u8> = Vec::new();
    text.extend_from_slice(vstd::slice::slice_subrange(rest.as_slice(), 0, rest.len() - q));
    assert(text@ =~= rest@.take(rest@.len() - q));
    Region { start: r.start + p, end: r.end - q, text }
}

/// Finds where edits change a text.
pub(crate) fn regions(text: &str, edits: &Vec<TextEdit>) -> (r: Vec<Region>)
    requires
        applicable(text@, edit_views(edits@)),
    ensures
        region_views(r@) == regions_of(text@, edit_views(edits@)),
{
    let t: &[u8] = text.as_bytes();
    let size: usize = t.len();
    let pieces = ordered_pieces(text, edits);
    let ghost list = piece_views(pieces@);
    let ghost given = splices_of(t@, edit_views(edits@));
    proof {
        lemma_bottom_up_falling(given);
        assert forall|i: int| 0 <= i < list.len() implies 0 <= (#[trigger] list[i]).start
            <= t@.len() by {
            let m = choose|m: int| 0 <= m < given.len() && given[m] == list[i];
            assert(given[m] == splice_of(t@, edit_views(edits@)[m]));
            vstd::utf8::encode_utf8_valid_utf8(text@);
            crate::apply::lemma_offset_boundary(t@, edit_views(edits@)[m].range.start);
        }
    }
    let mut all: Vec<Region> = Vec::new();
    let mut i: usize = 0;
    assert(region_views(all@) =~= merged(list.take(0)));
    while i < pieces.len()
        invariant
            i <= pieces@.len(),
            list == piece_views(pieces@),
            all_fit(t@, list),
            falling(list),
            forall|k: int| 0 <= k < list.len() ==> 0 <= (#[trigger] list[k]).start <= t@.len(),
            region_views(all@) == merged(list.take(i as int)),
        decreases pieces@.len() - i,
    {
        proof {
            let done = list.take(i as int);
            let part = list.take(i + 1);
            assert(part.last() == pieces@[i as int]@);
            assert(part.drop_last() =~= done);
            crate::apply::lemma_fit_prefix(t@, list, i + 1);
            crate::apply::lemma_fit_prefix(t@, list, i as int);
            lemma_merged(t@, done);
            assert(list[i as int] == pieces@[i as int]@);
            if i > 0 {
                assert(done.last() == list[i - 1]);
            }
        }
        absorb(t, &mut all, &pieces[i]);
        i += 1;
    }
    assert(list.take(i as int) =~= list);
    let ghost wide = region_views(all@);
    proof {
        lemma_merged(t@, list);
    }
    let mut out: Vec<Region> = Vec::new();
    let mut k: usize = 0;
    assert(region_views(out@) =~= effective(t@, wide.take(0)));
    while k < all.len()
        invariant
            k <= all@.len(),
            wide == region_views(all@),
            descending(wide),
            inside(t@, wide),
            region_views(out@) == effective(t@, wide.take(k as int)),
        decreases all@.len() - k,
    {
        proof {
            let part = wide.take(k + 1);
            assert(part.last() == all@[k as int]@);
            assert(part.drop_last() =~= wide.take(k as int));
            assert(wide[k as int] == all@[k as int]@);
        }
        let n = narrow(t, &all[k]);
        if n.start < n.end || n.text.len() > 0 {
            let ghost before = region_views(out@);
            let ghost v = n@;
            out.push(n);
            assert(region_views(out@) =~= before.push(v));
        } else {
            proof {
                lemma_narrowed(t@, wide[k as int]);
            }
        }
        k += 1;
    }
    assert(wide.take(k as int) =~= wide);
    out
}

/// The regions that start between two offsets, moved up to the first.
pub(crate) fn regions_between(list: &Vec<Region>, lo: usize, hi: usize) -> (r: Vec<Region>)
    requires
        descending(region_views(list@)),
    ensures
        region_views(r@) == all_lifted(
            between(region_views(list@), lo as int, hi as int),
            lo as int,
        ),
{
    let ghost all = region_views(list@);
    let mut out: Vec<Region> = Vec::new();
    let mut i: usize = 0;
    assert(region_views(out@) =~= all_lifted(between(all.take(0), lo as int, hi as int), lo as int));
    while i < list.len()
        invariant
            i <= list@.len(),
            all == region_views(list@),
            descending(all),
            region_views(out@) == all_lifted(
                between(all.take(i as int), lo as int, hi as int),
                lo as int,
            ),
        decreases list@.len() - i,
    {
        let r: &Region = &list[i];
        let ghost some = between(all.take(i as int), lo as int, hi as int);
        proof {
            let part = all.take(i + 1);
            assert(part.last() == r@);
            assert(part.drop_last() =~= all.take(i as int));
            assert(all[i as int] == r@);
        }
        if lo <= r.start && r.start <= hi {
            let mut text: Vec<u8> = Vec::new();
            text.extend_from_slice(r.text.as_slice());
            assert(text@ =~= r.text@);
            out.push(Region { start: r.start - lo, end: r.end - lo, text });
            assert(region_views(out@) =~= all_lifted(some, lo as int).push(
                lifted(r@, lo as int),
            ));
            assert(region_views(out@) =~= all_lifted(some.push(r@), lo as int));
        }
        i += 1;
    }
    assert(all.take(i as int) =~= all);
    out
}

/// The bytes from `lo` to `hi` with regions in place.
pub(crate) fn weave(t: &[u8], lo: usize, hi: usize, list: &Vec<Region>) -> (r: Vec<u8>)
    requires
        lo <= hi <= t@.len(),
        descending(region_views(list@)),
        inside(t@.subrange(lo as int, hi as int), region_views(list@)),
    ensures
        r@ == woven(t@.subrange(lo as int, hi as int), region_views(list@), 0),
{
    let ghost c = t@.subrange(lo as int, hi as int);
    let ghost all = region_views(list@);
    let mut out: Vec<u8> = Vec::new();
    let mut k: usize = list.len();
    let mut at: usize = 0;
    assert(all.take(k as int) =~= all);
    assert(out@ + woven(c, all, 0) =~= woven(c, all, 0));
    proof {
        if k > 0 {
            assert(all[k - 1].start <= all[k - 1].end);
        }
    }
    while k > 0
        invariant
            k <= list@.len(),
            lo <= hi <= t@.len(),
            c == t@.subrange(lo as int, hi as int),
            all == region_views(list@),
            descending(all),
            inside(c, all),
            at <= c.len(),
            k > 0 ==> at <= all[k - 1].start,
            out@ + woven(c, all.take(k as int), at as int) == woven(c, all, 0),
        decreases k,
    {
        let r: &Region = &list[k - 1];
        let ghost before = out@;
        proof {
            let part = all.take(k as int);
            assert(all[k - 1] == r@);
            assert(part.last() == r@);
            assert(part.drop_last() =~= all.take(k - 1));
            if k > 1 {
                assert(all[k - 1].end <= all[k - 2].start);
            }
        }
        out.extend_from_slice(vstd::slice::slice_subrange(t, lo + at, lo + r.start));
        out.extend_from_slice(r.text.as_slice());
        proof {
            assert(out@ =~= before + c.subrange(at as int, r.start as int) + r.text@);
            assert(out@ + woven(c, all.take(k - 1), r.end as int) =~= before + woven(
                c,
                all.take(k as int),
                at as int,
            ));
        }
        at = r.end;
        k -= 1;
    }
    let ghost before = out@;
    out.extend_from_slice(vstd::slice::slice_subrange(t, lo + at, hi));
    proof {
        assert(all.take(0) =~= Seq::empty());
        assert(out@ =~= before + c.subrange(at as int, c.len() as int));
    }
    out
}

// ---------------------------------------------------------------------------
// Regions are narrow
// ---------------------------------------------------------------------------

proof fn lemma_head_ends(a: Seq<u8>, b: Seq<u8>)
    ensures
        shared_head(a, b) <= a.len(),
        shared_head(a, b) <= b.len(),
        shared_head(a, b) < a.len() && shared_head(a, b) < b.len() ==> a[shared_head(a, b) as int]
            != b[shared_head(a, b) as int],
    decreases a.len(),
{
    if a.len() > 0 && b.len() > 0 && a[0] == b[0] {
        lemma_head_ends(a.drop_first(), b.drop_first());
    }
}

proof fn lemma_tail_ends(a: Seq<u8>, b: Seq<u8>)
    ensures
        shared_tail(a, b) <= a.len(),
        shared_tail(a, b) <= b.len(),
        shared_tail(a, b) < a.len() && shared_tail(a, b) < b.len() ==> a[a.len() - 1 - shared_tail(
            a,
            b,
        )] != b[b.len() - 1 - shared_tail(a, b)],
    decreases a.len(),
{
    if a.len() > 0 && b.len() > 0 && a.last() == b.last() {
        lemma_tail_ends(a.drop_last(), b.drop_last());
    }
}

/// Whether a region changes something, and at both of its ends: where it takes text away
/// and puts text in, the two differ in their first byte and in their last.
pub open spec fn is_narrow(t: Seq<u8>, r: Splice) -> bool {
    &&& r.start < r.end || r.text.len() > 0
    &&& r.start < r.end && r.text.len() > 0 ==> t[r.start] != r.text[0] && t[r.end - 1]
        != r.text.last()
}

proof fn lemma_narrowed_is_narrow(t: Seq<u8>, r: Splice)
    requires
        0 <= r.start <= r.end <= t.len(),
        !is_void(narrowed(t, r)),
    ensures
        is_narrow(t, narrowed(t, r)),
{
    let a = t.subrange(r.start, r.end);
    lemma_head_ends(a, r.text);
    let p = shared_head(a, r.text) as int;
    let rest = r.text.skip(p);
    let b = t.subrange(r.start + p, r.end);
    lemma_tail_ends(b, rest);
    let n = narrowed(t, r);
    if n.start < n.end && n.text.len() > 0 {
        assert(a[p] == t[n.start]);
        assert(n.text[0] == r.text[p]);
        let q = shared_tail(b, rest) as int;
        assert(b[b.len() - 1 - q] == t[n.end - 1]);
        assert(n.text.last() == rest[rest.len() - 1 - q]);
    }
}

proof fn lemma_effective_is_narrow(t: Seq<u8>, list: Seq<Splice>, k: int)
    requires
        forall|i: int|
            #![trigger list[i]]
            0 <= i < list.len() ==> 0 <= list[i].start <= list[i].end <= t.len(),
        0 <= k < effective(t, list).len(),
    ensures
        is_narrow(t, effective(t, list)[k]),
    decreases list.len(),
{
    if list.len() > 0 {
        let less = list.drop_last();
        assert forall|i: int| #![trigger less[i]] 0 <= i < less.len() implies 0 <= less[i].start
            <= less[i].end <= t.len() by {
            assert(less[i] == list[i]);
        }
        assert(list.last() == list[list.len() - 1]);
        if k < effective(t, less).len() {
            lemma_effective_is_narrow(t, less, k);
        } else {
            lemma_narrowed_is_narrow(t, list.last());
        }
    }
}

} // verus!
