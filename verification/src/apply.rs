//! Text edits: from protocol positions to byte offsets to the edited text.
//!
//! The protocol counts lines from zero and columns in UTF-16 code units, while a
//! string is UTF-8. Offsets are byte offsets into the encoded text, as
//! `str` has them. Edits are applied from the bottom up, so that a splice never
//! moves what is still to be edited.

use vstd::prelude::*;
use vstd::string::StringSliceAdditionalSpecFns;
use vstd::utf8::{encode_utf8, is_char_boundary, is_continuation_byte, valid_utf8};

use crate::text::{utf16_len, utf16_width};

verus! {

/// A place in a text: a line and a UTF-16 column, both counted from zero.
#[derive(Clone, Copy, PartialEq, Eq, Debug, Structural)]
pub struct Position {
    pub line: usize,
    pub character: usize,
}

/// A span of text, the end not included.
#[derive(Clone, Copy, PartialEq, Eq, Debug, Structural)]
pub struct Range {
    pub start: Position,
    pub end: Position,
}

/// The replacement of one span of text.
#[derive(Debug)]
pub struct TextEdit {
    pub range: Range,
    pub new_text: String,
}

/// What a text edit means.
pub struct TextEditView {
    pub range: Range,
    pub new_text: Seq<char>,
}

impl View for TextEdit {
    type V = TextEditView;

    open spec fn view(&self) -> TextEditView {
        TextEditView { range: self.range, new_text: self.new_text@ }
    }
}

/// What a list of text edits means.
pub open spec fn edit_views(edits: Seq<TextEdit>) -> Seq<TextEditView> {
    edits.map_values(|e: TextEdit| e@)
}

// ---------------------------------------------------------------------------
// Lines and columns
// ---------------------------------------------------------------------------

/// Whether a line begins at that offset: at the start, or right after `\n`,
/// `\r\n` or a `\r` that no `\n` follows.
pub open spec fn is_line_start(t: Seq<u8>, i: int) -> bool {
    &&& 0 <= i <= t.len()
    &&& i == 0 || t[i - 1] == 10 || (t[i - 1] == 13 && !(i < t.len() && t[i] == 10))
}

/// The offsets below `n` at which lines begin, ascending.
pub open spec fn starts_below(t: Seq<u8>, n: nat) -> Seq<usize>
    decreases n,
{
    if n == 0 {
        Seq::empty()
    } else if is_line_start(t, n - 1) {
        starts_below(t, (n - 1) as nat).push((n - 1) as usize)
    } else {
        starts_below(t, (n - 1) as nat)
    }
}

/// The offsets at which the lines of a text begin.
pub open spec fn starts_of(t: Seq<u8>) -> Seq<usize> {
    starts_below(t, t.len() + 1)
}

/// The UTF-16 code units of the character that a byte begins; none for a byte
/// inside a character.
pub open spec fn units_at(b: u8) -> nat {
    if is_continuation_byte(b) {
        0
    } else if b >= 0xf0 {
        2
    } else {
        1
    }
}

/// The first character boundary in `t[i..end]` that is at least `want` code
/// units in; `end` where there is none.
pub open spec fn column_offset(t: Seq<u8>, i: int, end: int, want: nat) -> int
    decreases end - i,
{
    if i >= end {
        end
    } else if want == 0 && !is_continuation_byte(t[i]) {
        i
    } else {
        column_offset(
            t,
            i + 1,
            end,
            if want <= units_at(t[i]) {
                0
            } else {
                (want - units_at(t[i])) as nat
            },
        )
    }
}

/// Where the line after the one numbered `line` begins, or the text ends.
pub open spec fn line_end(t: Seq<u8>, starts: Seq<usize>, line: int) -> int {
    if line + 1 < starts.len() {
        starts[line + 1] as int
    } else {
        t.len() as int
    }
}

/// The byte offset of a position. A line past the last is the end of the text, a
/// column past the end of its line is that end.
pub open spec fn offset_of(t: Seq<u8>, p: Position) -> int {
    let starts = starts_of(t);
    if p.line >= starts.len() {
        t.len() as int
    } else {
        column_offset(
            t,
            starts[p.line as int] as int,
            line_end(t, starts, p.line as int),
            p.character as nat,
        )
    }
}

/// What the list of line starts says: offsets of line starts, all of them, ascending.
pub proof fn lemma_starts_below(t: Seq<u8>, n: nat)
    requires
        n <= t.len() + 1,
        t.len() <= usize::MAX,
    ensures
        forall|k: int|
            0 <= k < starts_below(t, n).len() ==> (#[trigger] starts_below(t, n)[k]) < n
                && is_line_start(t, starts_below(t, n)[k] as int),
        forall|j: int, k: int|
            #![trigger starts_below(t, n)[j], starts_below(t, n)[k]]
            0 <= j < k < starts_below(t, n).len() ==> starts_below(t, n)[j] < starts_below(t, n)[k],
        forall|i: int|
            0 <= i < n && #[trigger] is_line_start(t, i) ==> starts_below(t, n).contains(i as usize),
        starts_below(t, n).len() <= n,
        n > 0 ==> starts_below(t, n).len() > 0 && starts_below(t, n)[0] == 0,
    decreases n,
{
    if n > 0 {
        let m = (n - 1) as nat;
        lemma_starts_below(t, m);
        let shorter = starts_below(t, m);
        let all = starts_below(t, n);
        assert forall|i: int| 0 <= i < n && #[trigger] is_line_start(t, i) implies all.contains(
            i as usize,
        ) by {
            if i < m {
                assert(shorter.contains(i as usize));
                let k = choose|k: int| 0 <= k < shorter.len() && shorter[k] == i as usize;
                assert(all[k] == i as usize);
            } else {
                assert(all[all.len() - 1] == i as usize);
            }
        }
        if m == 0 {
            assert(is_line_start(t, 0));
        }
    }
}

/// Byte offset in `text` where each line begins. `\r\n`, `\r` and `\n` each end a
/// line.
pub fn line_starts(text: &str) -> (r: Vec<usize>)
    ensures
        r@ == starts_of(encode_utf8(text@)),
{
    let bytes: &[u8] = text.as_bytes();
    let ghost t = bytes@;
    let mut offsets: Vec<usize> = Vec::new();
    offsets.push(0);
    let mut i: usize = 0;
    proof {
        reveal_with_fuel(starts_below, 2);
        assert(offsets@ =~= starts_below(t, 1));
    }
    while i < bytes.len()
        invariant
            t == bytes@,
            i <= t.len(),
            offsets@ == starts_below(t, (i + 1) as nat),
        decreases t.len() - i,
    {
        let b: u8 = bytes[i];
        if b == 13 && i + 1 < bytes.len() && bytes[i + 1] == 10 {
            proof {
                assert(!is_line_start(t, i + 1));
                assert(is_line_start(t, i + 2));
                assert(starts_below(t, (i + 2) as nat) == offsets@);
            }
            i += 2;
            offsets.push(i);
        } else if b == 13 || b == 10 {
            i += 1;
            offsets.push(i);
            assert(is_line_start(t, i as int));
        } else {
            i += 1;
            assert(!is_line_start(t, i as int));
        }
    }
    offsets
}

/// What a column offset is: the end, or a character boundary before it.
proof fn lemma_column_offset(t: Seq<u8>, i: int, end: int, want: nat)
    requires
        0 <= i <= end <= t.len(),
    ensures
        i <= column_offset(t, i, end, want) <= end,
        column_offset(t, i, end, want) < end ==> !is_continuation_byte(
            t[column_offset(t, i, end, want)],
        ),
    decreases end - i,
{
    if i < end && !(want == 0 && !is_continuation_byte(t[i])) {
        let left = if want <= units_at(t[i]) {
            0
        } else {
            (want - units_at(t[i])) as nat
        };
        lemma_column_offset(t, i + 1, end, left);
    }
}

/// A character begins right after an ASCII byte.
pub proof fn lemma_boundary_after_ascii(t: Seq<u8>, i: int)
    requires
        valid_utf8(t),
        0 < i <= t.len(),
        t[i - 1] < 0x80,
    ensures
        is_char_boundary(t, i),
    decreases t.len(),
{
    let n = vstd::utf8::length_of_first_scalar(t);
    let rest = vstd::utf8::pop_first_scalar(t);
    if i - 1 < n {
        reveal_with_fuel(is_char_boundary, 2);
    } else {
        assert(rest[i - 1 - n] == t[i - 1]);
        lemma_boundary_after_ascii(rest, i - n);
    }
}

/// A line begins at a character boundary.
pub proof fn lemma_line_start_boundary(t: Seq<u8>, i: int)
    requires
        valid_utf8(t),
        is_line_start(t, i),
    ensures
        is_char_boundary(t, i),
{
    if i > 0 {
        lemma_boundary_after_ascii(t, i);
    }
}

/// Every position lies at a character boundary of the text.
pub proof fn lemma_offset_boundary(t: Seq<u8>, p: Position)
    requires
        valid_utf8(t),
        t.len() <= usize::MAX,
    ensures
        0 <= offset_of(t, p) <= t.len(),
        is_char_boundary(t, offset_of(t, p)),
{
    vstd::utf8::is_char_boundary_start_end_of_seq(t);
    let starts = starts_of(t);
    lemma_starts_below(t, t.len() + 1);
    if p.line < starts.len() {
        let from = starts[p.line as int] as int;
        let end = line_end(t, starts, p.line as int);
        assert(is_line_start(t, from));
        if p.line + 1 < starts.len() {
            assert(is_line_start(t, starts[p.line + 1] as int));
            lemma_line_start_boundary(t, end);
        }
        lemma_column_offset(t, from, end, p.character as nat);
        let at = offset_of(t, p);
        if at < end {
            vstd::utf8::is_char_boundary_iff_not_is_continuation_byte(t, at);
        }
    }
}

/// Resolves a position (line, UTF-16 column) to a byte offset in `text`, given
/// where the lines of the text begin.
pub fn position_to_byte_offset(text: &str, starts: &Vec<usize>, pos: &Position) -> (r: usize)
    requires
        starts@ == starts_of(encode_utf8(text@)),
    ensures
        r == offset_of(encode_utf8(text@), *pos),
{
    let bytes: &[u8] = text.as_bytes();
    let size: usize = bytes.len();
    let ghost t = bytes@;
    proof {
        lemma_starts_below(t, t.len() + 1);
    }
    if pos.line >= starts.len() {
        return size;
    }
    let from: usize = starts[pos.line];
    let end: usize = if pos.line < starts.len() - 1 {
        starts[pos.line + 1]
    } else {
        size
    };
    let mut i: usize = from;
    let mut left: usize = pos.character;
    while i < end
        invariant
            t == bytes@,
            t == encode_utf8(text@),
            i <= end <= t.len(),
            column_offset(t, i as int, end as int, left as nat) == offset_of(t, *pos),
        decreases end - i,
    {
        let b: u8 = bytes[i];
        let inside: bool = 0x80 <= b && b <= 0xbf;
        if left == 0 && !inside {
            return i;
        }
        let units: usize = if inside {
            0
        } else if b >= 0xf0 {
            2
        } else {
            1
        };
        left = if left <= units {
            0
        } else {
            left - units
        };
        i += 1;
    }
    end
}

// ---------------------------------------------------------------------------
// Applying edits
// ---------------------------------------------------------------------------

/// The replacement of the bytes from `start` to `end`.
pub struct Splice {
    pub start: int,
    pub end: int,
    pub text: Seq<u8>,
}

/// The splice that an edit asks for in the text `t`.
pub open spec fn splice_of(t: Seq<u8>, e: TextEditView) -> Splice {
    Splice {
        start: offset_of(t, e.range.start),
        end: offset_of(t, e.range.end),
        text: encode_utf8(e.new_text),
    }
}

/// The splices that the edits ask for, in the order of the edits.
pub open spec fn splices_of(t: Seq<u8>, edits: Seq<TextEditView>) -> Seq<Splice> {
    edits.map_values(|e: TextEditView| splice_of(t, e))
}

/// A list in descending order of start with one splice more, behind those that
/// start no earlier.
pub open spec fn placed(list: Seq<Splice>, s: Splice) -> Seq<Splice>
    decreases list.len(),
{
    if list.len() > 0 && list.last().start < s.start {
        placed(list.drop_last(), s).push(list.last())
    } else {
        list.push(s)
    }
}

/// Splices from the bottom of the text to its top; those with one start keep their order.
pub open spec fn bottom_up(list: Seq<Splice>) -> Seq<Splice>
    decreases list.len(),
{
    if list.len() == 0 {
        list
    } else {
        placed(bottom_up(list.drop_last()), list.last())
    }
}

/// The text after one splice.
pub open spec fn cut(t: Seq<u8>, s: Splice) -> Seq<u8> {
    t.subrange(0, s.start) + s.text + t.subrange(s.end, t.len() as int)
}

/// The text after the splices, one after the other.
pub open spec fn patched(t: Seq<u8>, list: Seq<Splice>) -> Seq<u8>
    decreases list.len(),
{
    if list.len() == 0 {
        t
    } else {
        cut(patched(t, list.drop_last()), list.last())
    }
}

/// Whether a splice can be made: it lies in the text and splits no character.
pub open spec fn fits(t: Seq<u8>, s: Splice) -> bool {
    &&& 0 <= s.start <= s.end <= t.len()
    &&& is_char_boundary(t, s.start)
    &&& is_char_boundary(t, s.end)
}

/// Whether every splice can be made in the text that those before it left.
pub open spec fn all_fit(t: Seq<u8>, list: Seq<Splice>) -> bool
    decreases list.len(),
{
    list.len() > 0 ==> all_fit(t, list.drop_last()) && fits(
        patched(t, list.drop_last()),
        list.last(),
    )
}

/// Whether a list of edits can be applied to a text.
pub open spec fn applicable(text: Seq<char>, edits: Seq<TextEditView>) -> bool {
    let t = encode_utf8(text);
    all_fit(t, bottom_up(splices_of(t, edits)))
}

/// The bytes of the text with the edits applied.
pub open spec fn edited(text: Seq<char>, edits: Seq<TextEditView>) -> Seq<u8> {
    let t = encode_utf8(text);
    patched(t, bottom_up(splices_of(t, edits)))
}

/// The encoding of two texts in a row is that of the one and then that of the other.
pub proof fn lemma_encode_concat(a: Seq<char>, b: Seq<char>)
    ensures
        encode_utf8(a + b) == encode_utf8(a) + encode_utf8(b),
    decreases a.len(),
{
    if a.len() == 0 {
        assert(a + b =~= b);
        assert(encode_utf8(a) + encode_utf8(b) =~= encode_utf8(b));
    } else {
        assert((a + b).drop_first() =~= a.drop_first() + b);
        lemma_encode_concat(a.drop_first(), b);
    }
}

/// A splice with the text that it puts in.
#[derive(Debug)]
pub struct Piece {
    pub start: usize,
    pub end: usize,
    pub text: String,
}

impl View for Piece {
    type V = Splice;

    open spec fn view(&self) -> Splice {
        Splice { start: self.start as int, end: self.end as int, text: encode_utf8(self.text@) }
    }
}

/// What a list of pieces means.
pub open spec fn piece_views(list: Seq<Piece>) -> Seq<Splice> {
    list.map_values(|p: Piece| p@)
}

/// Puts a piece in its place in a list that is in descending order of start.
fn place(list: &mut Vec<Piece>, piece: Piece)
    ensures
        piece_views(final(list)@) == placed(piece_views(old(list)@), piece@),
{
    let ghost before = list@;
    let mut k: usize = list.len();
    let ghost mut moved: Seq<Splice> = Seq::empty();
    assert(piece_views(before).take(k as int) =~= piece_views(before));
    while k > 0 && list[k - 1].start < piece.start
        invariant
            list@ == before,
            k <= before.len(),
            moved == piece_views(before).skip(k as int),
            placed(piece_views(before), piece@) == placed(
                piece_views(before).take(k as int),
                piece@,
            ) + moved,
        decreases k,
    {
        proof {
            let part = piece_views(before).take(k as int);
            assert(part.last() == before[k - 1]@);
            assert(part.drop_last() =~= piece_views(before).take(k - 1));
            let now = piece_views(before).skip(k - 1);
            assert(now =~= seq![part.last()] + moved);
            assert(placed(part, piece@) + moved =~= placed(part.drop_last(), piece@) + now);
            moved = now;
        }
        k -= 1;
    }
    let ghost part = piece_views(before).take(k as int);
    proof {
        if k > 0 {
            assert(part.last() == before[k - 1]@);
        }
        assert(placed(part, piece@) == part.push(piece@));
    }
    let ghost p = piece@;
    list.insert(k, piece);
    assert(piece_views(list@) =~= part.push(p) + moved);
}

/// The text after one splice, where that can be made.
fn spliced(text: &str, piece: &Piece) -> (r: Option<String>)
    ensures
        r is Some <==> fits(encode_utf8(text@), piece@),
        r matches Some(s) ==> encode_utf8(s@) == cut(encode_utf8(text@), piece@),
{
    let size: usize = text.as_bytes().len();
    if piece.start <= piece.end && piece.end <= size && text.is_char_boundary(piece.start)
        && text.is_char_boundary(piece.end) {
        let (head, _) = text.split_at(piece.start);
        let (_, tail) = text.split_at(piece.end);
        let mut out = head.to_owned();
        out.append(piece.text.as_str());
        out.append(tail);
        proof {
            lemma_encode_concat(head@, piece.text@);
            lemma_encode_concat(head@ + piece.text@, tail@);
        }
        Some(out)
    } else {
        None
    }
}

/// The splices that edits ask for, from the bottom of the text to its top.
pub(crate) fn ordered_pieces(text: &str, edits: &Vec<TextEdit>) -> (r: Vec<Piece>)
    ensures
        piece_views(r@) == bottom_up(splices_of(encode_utf8(text@), edit_views(edits@))),
{
    let starts = line_starts(text);
    let ghost t = encode_utf8(text@);
    let ghost all = splices_of(t, edit_views(edits@));
    let mut pieces: Vec<Piece> = Vec::new();
    let mut i: usize = 0;
    assert(piece_views(pieces@) =~= bottom_up(all.take(0)));
    while i < edits.len()
        invariant
            i <= edits@.len(),
            t == encode_utf8(text@),
            starts@ == starts_of(t),
            all == splices_of(t, edit_views(edits@)),
            piece_views(pieces@) == bottom_up(all.take(i as int)),
        decreases edits@.len() - i,
    {
        let e: &TextEdit = &edits[i];
        let start: usize = position_to_byte_offset(text, &starts, &e.range.start);
        let end: usize = position_to_byte_offset(text, &starts, &e.range.end);
        let piece = Piece { start, end, text: e.new_text.as_str().to_owned() };
        proof {
            let part = all.take(i + 1);
            assert(part.last() == all[i as int]);
            assert(all[i as int] == piece@);
            assert(part.drop_last() =~= all.take(i as int));
        }
        place(&mut pieces, piece);
        i += 1;
    }
    assert(all.take(i as int) =~= all);
    pieces
}

/// Applies a list of edits to `text`; nothing where a span ends before it starts
/// or, because edits overlap, no longer fits the text.
pub fn try_apply_text_edits(text: &str, edits: &Vec<TextEdit>) -> (r: Option<String>)
    ensures
        r is Some <==> applicable(text@, edit_views(edits@)),
        r matches Some(s) ==> encode_utf8(s@) == edited(text@, edit_views(edits@)),
{
    let ghost t = encode_utf8(text@);
    let ghost all = splices_of(t, edit_views(edits@));
    let pieces = ordered_pieces(text, edits);
    let ghost list = piece_views(pieces@);
    let mut out = text.to_owned();
    let mut k: usize = 0;
    assert(list.take(0) =~= Seq::empty());
    while k < pieces.len()
        invariant
            k <= pieces@.len(),
            list == piece_views(pieces@),
            list == bottom_up(all),
            t == encode_utf8(text@),
            all == splices_of(t, edit_views(edits@)),
            all_fit(t, list.take(k as int)),
            encode_utf8(out@) == patched(t, list.take(k as int)),
        decreases pieces@.len() - k,
    {
        proof {
            let part = list.take(k + 1);
            assert(part.last() == pieces@[k as int]@);
            assert(part.drop_last() =~= list.take(k as int));
        }
        match spliced(out.as_str(), &pieces[k]) {
            Some(next) => {
                out = next;
            },
            None => {
                proof {
                    lemma_fit_prefix(t, list, k + 1);
                }
                return None;
            },
        }
        k += 1;
    }
    assert(list.take(k as int) =~= list);
    Some(out)
}

/// Where all splices can be made, so can the first ones.
pub proof fn lemma_fit_prefix(t: Seq<u8>, list: Seq<Splice>, k: int)
    requires
        0 <= k <= list.len(),
    ensures
        all_fit(t, list) ==> all_fit(t, list.take(k)),
    decreases list.len(),
{
    if k == list.len() {
        assert(list.take(k) =~= list);
    } else {
        lemma_fit_prefix(t, list.drop_last(), k);
        assert(list.drop_last().take(k) =~= list.take(k));
    }
}

/// Applies a list of edits to `text` and returns the new text.
pub fn apply_text_edits(text: &str, edits: &Vec<TextEdit>) -> (r: String)
    requires
        applicable(text@, edit_views(edits@)),
    ensures
        encode_utf8(r@) == edited(text@, edit_views(edits@)),
{
    match try_apply_text_edits(text, edits) {
        Some(s) => s,
        None => String::new(),
    }
}

// ---------------------------------------------------------------------------
// What edits do to a text
// ---------------------------------------------------------------------------

/// The text from offset `from` on, read once from top to bottom, each span that
/// is spliced replaced where it stands. The list is in descending order.
pub open spec fn woven(t: Seq<u8>, list: Seq<Splice>, from: int) -> Seq<u8>
    decreases list.len(),
{
    if list.len() == 0 {
        t.subrange(from, t.len() as int)
    } else {
        t.subrange(from, list.last().start) + list.last().text + woven(
            t,
            list.drop_last(),
            list.last().end,
        )
    }
}

/// Whether two splices, the second listed later, leave each other alone: the
/// later one ends before the earlier one, or starts behind its start and its end.
pub open spec fn apart(earlier: Splice, later: Splice) -> bool {
    later.end <= earlier.start || (earlier.end <= later.start && earlier.start < later.start)
}

/// Whether no two edits of a list touch the same text.
pub open spec fn disjoint(t: Seq<u8>, edits: Seq<TextEditView>) -> bool {
    let list = splices_of(t, edits);
    &&& forall|i: int| 0 <= i < list.len() ==> (#[trigger] list[i]).start <= list[i].end
    &&& forall|i: int, j: int|
        #![trigger list[i], list[j]]
        0 <= i < j < list.len() ==> apart(list[i], list[j])
}

/// Whether each splice ends before those above it in the list start.
pub open spec fn descending(list: Seq<Splice>) -> bool {
    &&& forall|i: int| 0 <= i < list.len() ==> (#[trigger] list[i]).start <= list[i].end
    &&& forall|i: int, j: int|
        #![trigger list[i], list[j]]
        0 <= i < j < list.len() ==> list[j].end <= list[i].start
}

/// Placing a splice adds it and keeps the others.
pub proof fn lemma_placed_members(list: Seq<Splice>, s: Splice)
    ensures
        placed(list, s).len() == list.len() + 1,
        forall|k: int|
            0 <= k < placed(list, s).len() ==> (#[trigger] placed(list, s)[k]) == s
                || list.contains(placed(list, s)[k]),
    decreases list.len(),
{
    if list.len() > 0 && list.last().start < s.start {
        let shorter = list.drop_last();
        lemma_placed_members(shorter, s);
        let all = placed(list, s);
        assert forall|k: int| 0 <= k < all.len() implies (#[trigger] all[k]) == s || list.contains(
            all[k],
        ) by {
            if k < all.len() - 1 {
                assert(all[k] == placed(shorter, s)[k]);
                if all[k] != s {
                    let m = choose|m: int| 0 <= m < shorter.len() && shorter[m] == all[k];
                    assert(list[m] == all[k]);
                }
            } else {
                assert(list[list.len() - 1] == all[k]);
            }
        }
    } else {
        assert forall|k: int| 0 <= k < list.push(s).len() implies (#[trigger] list.push(s)[k]) == s
            || list.contains(list.push(s)[k]) by {
            if k < list.len() {
                assert(list[k] == list.push(s)[k]);
            }
        }
    }
}

/// A splice that leaves the others alone finds a place among them.
proof fn lemma_placed_descending(list: Seq<Splice>, s: Splice)
    requires
        descending(list),
        s.start <= s.end,
        forall|i: int| 0 <= i < list.len() ==> apart(#[trigger] list[i], s),
    ensures
        descending(placed(list, s)),
    decreases list.len(),
{
    if list.len() > 0 && list.last().start < s.start {
        let shorter = list.drop_last();
        assert forall|i: int| 0 <= i < shorter.len() implies apart(#[trigger] shorter[i], s) by {
            assert(shorter[i] == list[i]);
        }
        assert(descending(shorter)) by {
            assert forall|i: int, j: int|
                #![trigger shorter[i], shorter[j]]
                0 <= i < j < shorter.len() implies shorter[j].end <= shorter[i].start by {
                assert(shorter[i] == list[i] && shorter[j] == list[j]);
            }
            assert forall|i: int| 0 <= i < shorter.len() implies (#[trigger] shorter[i]).start
                <= shorter[i].end by {
                assert(shorter[i] == list[i]);
            }
        }
        lemma_placed_descending(shorter, s);
        lemma_placed_members(shorter, s);
        let low = list.last();
        assert(low == list[list.len() - 1]);
        let upper = placed(shorter, s);
        let all = upper.push(low);
        assert forall|i: int, j: int|
            #![trigger all[i], all[j]]
            0 <= i < j < all.len() implies all[j].end <= all[i].start by {
            assert(all[i] == upper[i]);
            if j < upper.len() {
                assert(all[j] == upper[j]);
            } else if upper[i] != s {
                let m = choose|m: int| 0 <= m < shorter.len() && shorter[m] == upper[i];
                assert(list[m] == upper[i]);
            }
        }
        assert forall|i: int| 0 <= i < all.len() implies (#[trigger] all[i]).start
            <= all[i].end by {
            if i < upper.len() {
                assert(all[i] == upper[i]);
            }
        }
    } else {
        let all = list.push(s);
        assert forall|i: int, j: int|
            #![trigger all[i], all[j]]
            0 <= i < j < all.len() implies all[j].end <= all[i].start by {
            assert(all[i] == list[i]);
            if j < list.len() {
                assert(all[j] == list[j]);
            } else {
                assert(apart(list[i], s));
                assert(list[i].start >= s.start) by {
                    let low = list[list.len() - 1];
                    if i < list.len() - 1 {
                        assert(low.end <= list[i].start);
                    }
                }
            }
        }
        assert forall|i: int| 0 <= i < all.len() implies (#[trigger] all[i]).start
            <= all[i].end by {
            if i < list.len() {
                assert(all[i] == list[i]);
            }
        }
    }
}

/// Splices that leave each other alone stand one below the other once ordered.
proof fn lemma_bottom_up_descending(list: Seq<Splice>)
    requires
        forall|i: int| 0 <= i < list.len() ==> (#[trigger] list[i]).start <= list[i].end,
        forall|i: int, j: int|
            #![trigger list[i], list[j]]
            0 <= i < j < list.len() ==> apart(list[i], list[j]),
    ensures
        descending(bottom_up(list)),
        forall|k: int|
            0 <= k < bottom_up(list).len() ==> list.contains(#[trigger] bottom_up(list)[k]),
    decreases list.len(),
{
    if list.len() > 0 {
        let shorter = list.drop_last();
        let s = list.last();
        assert(s == list[list.len() - 1]);
        assert forall|i: int, j: int|
            #![trigger shorter[i], shorter[j]]
            0 <= i < j < shorter.len() implies apart(shorter[i], shorter[j]) by {
            assert(shorter[i] == list[i] && shorter[j] == list[j]);
        }
        assert forall|i: int| 0 <= i < shorter.len() implies (#[trigger] shorter[i]).start
            <= shorter[i].end by {
            assert(shorter[i] == list[i]);
        }
        lemma_bottom_up_descending(shorter);
        let upper = bottom_up(shorter);
        assert forall|i: int| 0 <= i < upper.len() implies apart(#[trigger] upper[i], s) by {
            let m = choose|m: int| 0 <= m < shorter.len() && shorter[m] == upper[i];
            assert(list[m] == upper[i]);
        }
        lemma_placed_descending(upper, s);
        lemma_placed_members(upper, s);
        let all = bottom_up(list);
        assert forall|k: int| 0 <= k < all.len() implies list.contains(#[trigger] all[k]) by {
            if all[k] != s {
                let m = choose|m: int| 0 <= m < upper.len() && upper[m] == all[k];
                assert(shorter.contains(upper[m]));
                let q = choose|q: int| 0 <= q < shorter.len() && shorter[q] == upper[m];
                assert(list[q] == all[k]);
            }
        }
    }
}

/// What stands before the lowest splice is read as it is.
pub proof fn lemma_woven_prefix(t: Seq<u8>, list: Seq<Splice>, from: int, m: int)
    requires
        0 <= from <= m <= t.len(),
        list.len() > 0 ==> m <= list.last().start <= t.len(),
    ensures
        woven(t, list, from) == t.subrange(from, m) + woven(t, list, m),
{
    if list.len() == 0 {
        assert(t.subrange(from, t.len() as int) =~= t.subrange(from, m) + t.subrange(
            m,
            t.len() as int,
        ));
    } else {
        let tail = list.last().text + woven(t, list.drop_last(), list.last().end);
        assert(woven(t, list, from) =~= t.subrange(from, list.last().start) + tail);
        assert(woven(t, list, m) =~= t.subrange(m, list.last().start) + tail);
        assert(t.subrange(from, list.last().start) =~= t.subrange(from, m) + t.subrange(
            m,
            list.last().start,
        ));
        assert(woven(t, list, from) =~= t.subrange(from, m) + woven(t, list, m));
    }
}

/// The end of one text is a character boundary of that text followed by another.
proof fn lemma_boundary_between(a: Seq<u8>, b: Seq<u8>)
    requires
        valid_utf8(a),
        valid_utf8(b),
    ensures
        valid_utf8(a + b),
        is_char_boundary(a + b, a.len() as int),
{
    let both = a + b;
    vstd::utf8::valid_utf8_concat(a, b);
    vstd::utf8::is_char_boundary_start_end_of_seq(both);
    if b.len() > 0 {
        assert(both[a.len() as int] == b[0]);
        vstd::utf8::is_char_boundary_start_end_of_seq(b);
        vstd::utf8::is_char_boundary_iff_not_is_continuation_byte(b, 0);
        vstd::utf8::is_char_boundary_iff_not_is_continuation_byte(both, a.len() as int);
    } else {
        assert(both =~= a);
    }
}

/// Splices one below the other can all be made, and leave the text that reading
/// it once from top to bottom gives.
proof fn lemma_descending_woven(t: Seq<u8>, list: Seq<Splice>)
    requires
        valid_utf8(t),
        descending(list),
        forall|i: int|
            #![trigger list[i]]
            0 <= i < list.len() ==> 0 <= list[i].start <= t.len() && 0 <= list[i].end <= t.len()
                && is_char_boundary(t, list[i].start) && is_char_boundary(t, list[i].end)
                && valid_utf8(list[i].text),
    ensures
        all_fit(t, list),
        patched(t, list) == woven(t, list, 0),
        forall|i: int|
            #![trigger woven(t, list, i)]
            0 <= i <= t.len() && is_char_boundary(t, i) && (list.len() > 0 ==> i
                <= list.last().start) ==> valid_utf8(woven(t, list, i)),
    decreases list.len(),
{
    if list.len() == 0 {
        assert(t.subrange(0, t.len() as int) =~= t);
        assert forall|i: int|
            #![trigger woven(t, list, i)]
            0 <= i <= t.len() && is_char_boundary(t, i) implies valid_utf8(woven(t, list, i)) by {
            vstd::utf8::valid_utf8_split(t, i);
        }
    } else {
        let upper = list.drop_last();
        let s = list.last();
        assert(s == list[list.len() - 1]);
        assert forall|i: int, j: int|
            #![trigger upper[i], upper[j]]
            0 <= i < j < upper.len() implies upper[j].end <= upper[i].start by {
            assert(upper[i] == list[i] && upper[j] == list[j]);
        }
        assert forall|i: int|
            #![trigger upper[i]]
            0 <= i < upper.len() implies 0 <= upper[i].start <= t.len() && 0 <= upper[i].end
            <= t.len() && is_char_boundary(t, upper[i].start) && is_char_boundary(t, upper[i].end)
            && valid_utf8(upper[i].text) && upper[i].start <= upper[i].end by {
            assert(upper[i] == list[i]);
        }
        lemma_descending_woven(t, upper);
        if upper.len() > 0 {
            assert(upper.last() == list[list.len() - 2]);
        }
        lemma_woven_prefix(t, upper, 0, s.end);
        let u = patched(t, upper);
        let head = t.subrange(0, s.end);
        let tail = woven(t, upper, s.end);
        vstd::utf8::valid_utf8_split(t, s.end);
        lemma_boundary_between(head, tail);
        assert(u == head + tail);
        if s.start < s.end {
            assert(u[s.start] == t[s.start]);
            vstd::utf8::is_char_boundary_iff_not_is_continuation_byte(t, s.start);
            vstd::utf8::is_char_boundary_iff_not_is_continuation_byte(u, s.start);
        }
        assert(fits(u, s));
        assert(u.subrange(s.end, u.len() as int) =~= tail);
        assert(u.subrange(0, s.start) =~= t.subrange(0, s.start));
        assert(cut(u, s) =~= woven(t, list, 0));
        assert forall|i: int|
            #![trigger woven(t, list, i)]
            0 <= i <= t.len() && is_char_boundary(t, i) && i <= s.start implies valid_utf8(
            woven(t, list, i),
        ) by {
            lemma_between_boundaries(t, i, s.start);
            vstd::utf8::valid_utf8_concat(t.subrange(i, s.start), s.text);
            vstd::utf8::valid_utf8_concat(t.subrange(i, s.start) + s.text, tail);
        }
    }
}

/// What stands between two character boundaries is text.
proof fn lemma_between_boundaries(t: Seq<u8>, a: int, b: int)
    requires
        valid_utf8(t),
        0 <= a <= b <= t.len(),
        is_char_boundary(t, a),
        is_char_boundary(t, b),
    ensures
        valid_utf8(t.subrange(a, b)),
{
    vstd::utf8::valid_utf8_split(t, b);
    let head = t.subrange(0, b);
    vstd::utf8::is_char_boundary_start_end_of_seq(head);
    if a < b {
        assert(head[a] == t[a]);
        vstd::utf8::is_char_boundary_iff_not_is_continuation_byte(t, a);
        vstd::utf8::is_char_boundary_iff_not_is_continuation_byte(head, a);
    }
    vstd::utf8::valid_utf8_split(head, a);
    assert(head.subrange(a, head.len() as int) =~= t.subrange(a, b));
}

/// Edits of which no two touch the same text can always be applied, in whatever
/// order they are listed, and every one of them replaces exactly its own span of
/// the unedited text: what comes out is the text read once from top to bottom
/// with each span replaced where it stands.
pub proof fn lemma_disjoint_edits(text: Seq<char>, edits: Seq<TextEditView>)
    requires
        encode_utf8(text).len() <= usize::MAX,
        disjoint(encode_utf8(text), edits),
    ensures
        applicable(text, edits),
        edited(text, edits) == woven(
            encode_utf8(text),
            bottom_up(splices_of(encode_utf8(text), edits)),
            0,
        ),
        valid_utf8(edited(text, edits)),
        descending(bottom_up(splices_of(encode_utf8(text), edits))),
        bottom_up(splices_of(encode_utf8(text), edits)).to_multiset() == splices_of(
            encode_utf8(text),
            edits,
        ).to_multiset(),
{
    let t = encode_utf8(text);
    lemma_bottom_up_permutes(splices_of(t, edits));
    vstd::utf8::encode_utf8_valid_utf8(text);
    let list = splices_of(t, edits);
    lemma_bottom_up_descending(list);
    let sorted = bottom_up(list);
    assert forall|i: int|
        #![trigger sorted[i]]
        0 <= i < sorted.len() implies 0 <= sorted[i].start <= t.len() && 0 <= sorted[i].end
        <= t.len() && is_char_boundary(t, sorted[i].start) && is_char_boundary(t, sorted[i].end)
        && valid_utf8(sorted[i].text) by {
        let m = choose|m: int| 0 <= m < list.len() && list[m] == sorted[i];
        assert(list[m] == splice_of(t, edits[m]));
        lemma_offset_boundary(t, edits[m].range.start);
        lemma_offset_boundary(t, edits[m].range.end);
        vstd::utf8::encode_utf8_valid_utf8(edits[m].new_text);
    }
    lemma_descending_woven(t, sorted);
}

/// Edits that can be applied leave a text.
pub proof fn lemma_edited_valid(t: Seq<u8>, list: Seq<Splice>)
    requires
        valid_utf8(t),
        all_fit(t, list),
        forall|i: int| 0 <= i < list.len() ==> valid_utf8((#[trigger] list[i]).text),
    ensures
        valid_utf8(patched(t, list)),
    decreases list.len(),
{
    if list.len() > 0 {
        let upper = list.drop_last();
        let s = list.last();
        assert(s == list[list.len() - 1]);
        assert forall|i: int| 0 <= i < upper.len() implies valid_utf8(
            (#[trigger] upper[i]).text,
        ) by {
            assert(upper[i] == list[i]);
        }
        lemma_edited_valid(t, upper);
        let u = patched(t, upper);
        vstd::utf8::valid_utf8_split(u, s.start);
        vstd::utf8::valid_utf8_split(u, s.end);
        vstd::utf8::valid_utf8_concat(u.subrange(0, s.start), s.text);
        vstd::utf8::valid_utf8_concat(
            u.subrange(0, s.start) + s.text,
            u.subrange(s.end, u.len() as int),
        );
    }
}

/// A splice is undone by the one that puts the old text back.
pub proof fn lemma_splice_undone(t: Seq<u8>, s: Splice)
    requires
        fits(t, s),
    ensures
        cut(
            cut(t, s),
            Splice {
                start: s.start,
                end: s.start + s.text.len(),
                text: t.subrange(s.start, s.end),
            },
        ) == t,
{
    let u = cut(t, s);
    let back = Splice {
        start: s.start,
        end: s.start + s.text.len(),
        text: t.subrange(s.start, s.end),
    };
    assert(u.subrange(0, s.start) =~= t.subrange(0, s.start));
    assert(u.subrange(back.end, u.len() as int) =~= t.subrange(s.end, t.len() as int));
    assert(cut(u, back) =~= t);
}

/// No edits leave a text as it is.
pub proof fn lemma_no_edits(text: Seq<char>)
    ensures
        applicable(text, Seq::empty()),
        edited(text, Seq::empty()) == encode_utf8(text),
{
    assert(splices_of(encode_utf8(text), Seq::empty()) =~= Seq::empty());
}

/// The first character's share of the UTF-16 code units of a text.
proof fn lemma_utf16_first(s: Seq<char>)
    requires
        s.len() > 0,
    ensures
        utf16_len(s) == utf16_width(s[0]) + utf16_len(s.drop_first()),
    decreases s.len(),
{
    if s.len() == 1 {
        assert(s.drop_last() =~= Seq::empty());
        assert(s.drop_first() =~= Seq::empty());
        reveal_with_fuel(utf16_len, 2);
    } else {
        lemma_utf16_first(s.drop_last());
        assert(s.drop_last().drop_first() =~= s.drop_first().drop_last());
        assert(s.drop_first().last() == s.last());
    }
}

/// Walking over a text takes as many code units as it has in UTF-16.
proof fn lemma_column_walk(t: Seq<u8>, i: int, end: int, a: Seq<char>)
    requires
        0 <= i,
        i + encode_utf8(a).len() <= end <= t.len(),
        t.subrange(i, i + encode_utf8(a).len()) == encode_utf8(a),
        i + encode_utf8(a).len() < end ==> !is_continuation_byte(t[i + encode_utf8(a).len()]),
    ensures
        column_offset(t, i, end, utf16_len(a)) == i + encode_utf8(a).len(),
    decreases a.len(),
{
    let code = encode_utf8(a);
    if a.len() > 0 {
        lemma_utf16_first(a);
        let rest = a.drop_first();
        let first = vstd::utf8::encode_scalar(a[0] as u32);
        vstd::utf8::encode_utf8_first_scalar(a);
        let n = first.len() as int;
        assert(code == first + encode_utf8(rest));
        assert forall|k: int| 0 <= k < code.len() implies code[k] == #[trigger] t[i + k] by {
            assert(t.subrange(i, i + code.len())[k] == t[i + k]);
        }
        assert(t.subrange(i + n, i + n + encode_utf8(rest).len()) =~= encode_utf8(rest)) by {
            assert forall|k: int| 0 <= k < encode_utf8(rest).len() implies encode_utf8(rest)[k]
                == t[i + n + k] by {
                assert(code[n + k] == t[i + (n + k)]);
            }
        }
        lemma_column_walk(t, i + n, end, rest);
        assert(t[i + 0] == code[0]);
        assert(units_at(t[i]) == utf16_width(a[0]));
        assert(n > 1 ==> is_continuation_byte(t[i + 1]));
        assert(n > 2 ==> is_continuation_byte(t[i + 2]));
        assert(n > 3 ==> is_continuation_byte(t[i + 3]));
        reveal_with_fuel(column_offset, 5);
    } else {
        assert(code.len() == 0);
    }
}

/// Columns count UTF-16 code units: the place behind a piece `a` of a line, `a`
/// starting where the line starts, has the column that is the length of `a` in
/// UTF-16 code units.
pub proof fn lemma_columns_are_utf16(before: Seq<char>, a: Seq<char>, rest: Seq<char>, p: Position)
    requires
        encode_utf8(before + a + rest).len() <= usize::MAX,
        p.line < starts_of(encode_utf8(before + a + rest)).len(),
        starts_of(encode_utf8(before + a + rest))[p.line as int] == encode_utf8(before).len(),
        encode_utf8(before + a).len() <= line_end(
            encode_utf8(before + a + rest),
            starts_of(encode_utf8(before + a + rest)),
            p.line as int,
        ),
        p.character == utf16_len(a),
    ensures
        offset_of(encode_utf8(before + a + rest), p) == encode_utf8(before + a).len(),
{
    let t = encode_utf8(before + a + rest);
    let from = encode_utf8(before).len() as int;
    lemma_encode_concat(before, a);
    lemma_encode_concat(before + a, rest);
    vstd::utf8::encode_utf8_valid_utf8(before + a);
    vstd::utf8::encode_utf8_valid_utf8(rest);
    lemma_starts_below(t, t.len() + 1);
    let end = line_end(t, starts_of(t), p.line as int);
    let code = encode_utf8(a);
    let at = from + code.len();
    assert(t.subrange(from, at) =~= code);
    lemma_boundary_between(encode_utf8(before + a), encode_utf8(rest));
    if at < end {
        vstd::utf8::is_char_boundary_iff_not_is_continuation_byte(t, at);
    }
    lemma_column_walk(t, from, end, a);
}

/// A place on a line: behind the piece `a` of it.
pub open spec fn place_behind(line: usize, a: Seq<char>) -> Position {
    Position { line, character: utf16_len(a) as usize }
}

/// Whether `a` is the beginning of a line of the text `before + a + rest`, the line
/// itself beginning behind `before`, and its length is a column.
pub open spec fn on_line(before: Seq<char>, a: Seq<char>, rest: Seq<char>, line: usize) -> bool {
    let t = encode_utf8(before + a + rest);
    &&& t.len() <= usize::MAX
    &&& line < starts_of(t).len()
    &&& starts_of(t)[line as int] == encode_utf8(before).len()
    &&& encode_utf8(before + a).len() <= line_end(t, starts_of(t), line as int)
    &&& utf16_len(a) <= usize::MAX
}

/// The replacement of `was`, which stands behind the piece `a` of a line, by `now`.
pub open spec fn replacement(
    line: usize,
    a: Seq<char>,
    was: Seq<char>,
    now: Seq<char>,
) -> TextEditView {
    TextEditView {
        range: Range { start: place_behind(line, a), end: place_behind(line, a + was) },
        new_text: now,
    }
}

/// On a line a name is replaced where it stands: the edit from the column where it
/// begins to the column where it ends leaves everything around it.
pub proof fn lemma_replaced(
    before: Seq<char>,
    a: Seq<char>,
    was: Seq<char>,
    now: Seq<char>,
    rest: Seq<char>,
    line: usize,
)
    requires
        on_line(before, a + was, rest, line),
    ensures
        applicable(before + a + was + rest, seq![replacement(line, a, was, now)]),
        edited(before + a + was + rest, seq![replacement(line, a, was, now)]) == encode_utf8(
            before + a + now + rest,
        ),
{
    let text = before + a + was + rest;
    let t = encode_utf8(text);
    let e = replacement(line, a, was, now);
    assert(before + (a + was) + rest =~= text);
    assert(before + a + (was + rest) =~= text);
    assert(before + (a + was) =~= before + a + was);
    lemma_encode_concat(before + a, was);
    lemma_encode_concat(before + a, was + rest);
    lemma_encode_concat(was, rest);
    lemma_encode_concat(before + a + was, rest);
    lemma_utf16_concat(a, was);
    lemma_columns_are_utf16(before, a, was + rest, e.range.start);
    lemma_columns_are_utf16(before, a + was, rest, e.range.end);
    let s = splice_of(t, e);
    assert(s.start == encode_utf8(before + a).len());
    assert(s.end == encode_utf8(before + a + was).len());
    vstd::utf8::encode_utf8_valid_utf8(text);
    lemma_offset_boundary(t, e.range.start);
    lemma_offset_boundary(t, e.range.end);
    let list = splices_of(t, seq![e]);
    assert(list =~= seq![s]);
    assert(seq![s].drop_last() =~= Seq::empty());
    let none = Seq::<Splice>::empty();
    assert(bottom_up(none) == none);
    assert(bottom_up(list) =~= seq![s]);
    assert(patched(t, none) == t);
    assert(all_fit(t, none));
    assert(patched(t, seq![s]) == cut(t, s));
    lemma_encode_concat(before + a, now);
    lemma_encode_concat(before + a + now, rest);
    assert(t.subrange(0, s.start) =~= encode_utf8(before + a));
    assert(t.subrange(s.end, t.len() as int) =~= encode_utf8(rest));
}

/// Renaming back restores the text: where a name on a line was replaced, the edit
/// that replaces the new name by the old one, in lines and columns of the new text,
/// leaves the text as it was.
pub proof fn lemma_edit_undone(
    before: Seq<char>,
    a: Seq<char>,
    was: Seq<char>,
    now: Seq<char>,
    rest: Seq<char>,
    line: usize,
)
    requires
        on_line(before, a + was, rest, line),
        on_line(before, a + now, rest, line),
    ensures
        ({
            let text = before + a + was + rest;
            let renamed = before + a + now + rest;
            &&& applicable(text, seq![replacement(line, a, was, now)])
            &&& edited(text, seq![replacement(line, a, was, now)]) == encode_utf8(renamed)
            &&& applicable(renamed, seq![replacement(line, a, now, was)])
            &&& edited(renamed, seq![replacement(line, a, now, was)]) == encode_utf8(text)
        }),
{
    lemma_replaced(before, a, was, now, rest, line);
    lemma_replaced(before, a, now, was, rest, line);
}

/// The code units of two texts in a row are those of the one and of the other.
proof fn lemma_utf16_concat(a: Seq<char>, b: Seq<char>)
    ensures
        utf16_len(a + b) == utf16_len(a) + utf16_len(b),
    decreases b.len(),
{
    if b.len() == 0 {
        assert(a + b =~= a);
    } else {
        assert((a + b).drop_last() =~= a + b.drop_last());
        lemma_utf16_concat(a, b.drop_last());
    }
}

/// Ordering splices loses none and adds none.
proof fn lemma_bottom_up_permutes(list: Seq<Splice>)
    ensures
        bottom_up(list).to_multiset() == list.to_multiset(),
    decreases list.len(),
{
    if list.len() > 0 {
        lemma_bottom_up_permutes(list.drop_last());
        lemma_placed_permutes(bottom_up(list.drop_last()), list.last());
        list.drop_last().to_multiset_ensures();
        assert(list =~= list.drop_last().push(list.last()));
    }
}

proof fn lemma_placed_permutes(list: Seq<Splice>, s: Splice)
    ensures
        placed(list, s).to_multiset() == list.to_multiset().insert(s),
    decreases list.len(),
{
    list.to_multiset_ensures();
    if list.len() > 0 && list.last().start < s.start {
        let shorter = list.drop_last();
        lemma_placed_permutes(shorter, s);
        placed(shorter, s).to_multiset_ensures();
        shorter.to_multiset_ensures();
        assert(list =~= shorter.push(list.last()));
        assert(placed(list, s).to_multiset() =~= list.to_multiset().insert(s));
    }
}

// ---------------------------------------------------------------------------
// What holds of positions and of edits at one place
// ---------------------------------------------------------------------------

/// Lines begin at the start of the text and behind each newline, carriage return, or
/// carriage return with a newline, and nowhere else.
pub proof fn lemma_line_starts(t: Seq<u8>, i: int)
    requires
        t.len() <= usize::MAX,
        0 <= i <= t.len(),
    ensures
        starts_of(t).contains(i as usize) && i <= usize::MAX <==> i == 0 || t[i - 1] == 10 || (t[i
            - 1] == 13 && (i == t.len() || t[i] != 10)),
{
    lemma_starts_below(t, t.len() + 1);
    if starts_of(t).contains(i as usize) {
        let k = choose|k: int| 0 <= k < starts_of(t).len() && starts_of(t)[k] == i as usize;
        assert(is_line_start(t, starts_of(t)[k] as int));
    }
    if i == 0 || t[i - 1] == 10 || (t[i - 1] == 13 && (i == t.len() || t[i] != 10)) {
        assert(is_line_start(t, i));
    }
}

proof fn lemma_column_bounds(t: Seq<u8>, i: int, end: int, want: nat)
    requires
        0 <= i <= end <= t.len(),
    ensures
        i <= column_offset(t, i, end, want) <= end,
        want >= 2 * (end - i) ==> column_offset(t, i, end, want) == end,
    decreases end - i,
{
    if i < end && !(want == 0 && !is_continuation_byte(t[i])) {
        lemma_column_bounds(
            t,
            i + 1,
            end,
            if want <= units_at(t[i]) {
                0
            } else {
                (want - units_at(t[i])) as nat
            },
        );
    }
}

/// A position behind the last line is the end of the text; every other lies on its own
/// line: column zero at its start, and a column behind its end at its end.
pub proof fn lemma_positions_stay_on_their_line(text: Seq<char>, p: Position)
    requires
        encode_utf8(text).len() <= usize::MAX,
    ensures
        ({
            let t = encode_utf8(text);
            let starts = starts_of(t);
            let end = line_end(t, starts, p.line as int);
            let at = offset_of(t, p);
            &&& p.line >= starts.len() ==> at == t.len()
            &&& p.line < starts.len() ==> starts[p.line as int] <= at <= end
            &&& p.line < starts.len() && p.character == 0 ==> at == starts[p.line as int]
            &&& p.line < starts.len() && p.character >= 2 * (end - starts[p.line as int]) ==> at
                == end
        }),
{
    let t = encode_utf8(text);
    let starts = starts_of(t);
    lemma_starts_below(t, t.len() + 1);
    if p.line < starts.len() {
        let k = p.line as int;
        let start = starts[k] as int;
        let end = line_end(t, starts, k);
        lemma_column_bounds(t, start, end, p.character as nat);
        vstd::utf8::encode_utf8_valid_utf8(text);
        lemma_line_start_boundary(t, start);
        if start < t.len() {
            vstd::utf8::is_char_boundary_iff_not_is_continuation_byte(t, start);
        }
    }
}

/// Edits that stand apart can be listed in any order: the result is the same.
pub proof fn lemma_order_of_edits(text: Seq<char>, x: TextEditView, y: TextEditView)
    requires
        encode_utf8(text).len() <= usize::MAX,
        ({
            let t = encode_utf8(text);
            &&& offset_of(t, x.range.start) <= offset_of(t, x.range.end)
            &&& offset_of(t, x.range.end) <= offset_of(t, y.range.start)
            &&& offset_of(t, x.range.start) < offset_of(t, y.range.start)
            &&& offset_of(t, y.range.start) <= offset_of(t, y.range.end)
        }),
    ensures
        applicable(text, seq![x, y]),
        applicable(text, seq![y, x]),
        edited(text, seq![x, y]) == edited(text, seq![y, x]),
        ({
            let t = encode_utf8(text);
            edited(text, seq![x, y]) == t.subrange(0, offset_of(t, x.range.start)) + encode_utf8(
                x.new_text,
            ) + t.subrange(offset_of(t, x.range.end), offset_of(t, y.range.start)) + encode_utf8(
                y.new_text,
            ) + t.subrange(offset_of(t, y.range.end), t.len() as int)
        }),
{
    let t = encode_utf8(text);
    let a = splice_of(t, x);
    let b = splice_of(t, y);
    assert(splices_of(t, seq![x, y]) =~= seq![a, b]);
    assert(splices_of(t, seq![y, x]) =~= seq![b, a]);
    assert(seq![a, b].drop_last() =~= seq![a]);
    assert(seq![b, a].drop_last() =~= seq![b]);
    assert(seq![a].drop_last() =~= Seq::empty());
    assert(seq![b].drop_last() =~= Seq::empty());
    reveal_with_fuel(bottom_up, 3);
    reveal_with_fuel(placed, 3);
    assert(bottom_up(seq![a]) =~= seq![a]);
    assert(bottom_up(seq![b]) =~= seq![b]);
    assert(bottom_up(seq![a, b]) =~= seq![b, a]);
    assert(bottom_up(seq![b, a]) =~= seq![b, a]);
    lemma_disjoint_edits(text, seq![x, y]);
    lemma_disjoint_edits(text, seq![y, x]);
    reveal_with_fuel(woven, 3);
    assert(woven(t, seq![b, a], 0) =~= t.subrange(0, a.start) + a.text + t.subrange(
        a.end,
        b.start,
    ) + b.text + t.subrange(b.end, t.len() as int));
}

/// Of two insertions at one place the one that is listed first ends up behind the other,
/// and the text round them stays.
pub proof fn lemma_insertions_at_one_place(
    text: Seq<char>,
    p: Position,
    first: Seq<char>,
    second: Seq<char>,
)
    requires
        encode_utf8(text).len() <= usize::MAX,
    ensures
        ({
            let t = encode_utf8(text);
            let at = offset_of(t, p);
            let here = Range { start: p, end: p };
            edited(
                text,
                seq![
                    TextEditView { range: here, new_text: first },
                    TextEditView { range: here, new_text: second },
                ],
            ) == t.subrange(0, at) + encode_utf8(second) + encode_utf8(first) + t.subrange(
                at,
                t.len() as int,
            )
        }),
{
    let t = encode_utf8(text);
    let here = Range { start: p, end: p };
    let x = TextEditView { range: here, new_text: first };
    let y = TextEditView { range: here, new_text: second };
    let a = splice_of(t, x);
    let b = splice_of(t, y);
    vstd::utf8::encode_utf8_valid_utf8(text);
    lemma_offset_boundary(t, p);
    assert(splices_of(t, seq![x, y]) =~= seq![a, b]);
    assert(seq![a, b].drop_last() =~= seq![a]);
    assert(seq![a].drop_last() =~= Seq::empty());
    reveal_with_fuel(bottom_up, 3);
    reveal_with_fuel(placed, 3);
    assert(bottom_up(seq![a]) =~= seq![a]);
    assert(bottom_up(seq![a, b]) =~= seq![a, b]);
    reveal_with_fuel(patched, 3);
    assert(patched(t, seq![a]) == cut(t, a));
    assert(cut(cut(t, a), b) =~= t.subrange(0, a.start) + b.text + a.text + t.subrange(
        a.start,
        t.len() as int,
    ));
}

/// Of two edits the one that starts further down is made first, whichever is listed
/// first; the other is made in what that leaves.
pub proof fn lemma_lower_edit_first(text: Seq<char>, upper: TextEditView, lower: TextEditView)
    requires
        offset_of(encode_utf8(text), upper.range.start) < offset_of(
            encode_utf8(text),
            lower.range.start,
        ),
    ensures
        ({
            let t = encode_utf8(text);
            let u = t.subrange(0, offset_of(t, lower.range.start)) + encode_utf8(lower.new_text)
                + t.subrange(offset_of(t, lower.range.end), t.len() as int);
            let both = u.subrange(0, offset_of(t, upper.range.start)) + encode_utf8(upper.new_text)
                + u.subrange(offset_of(t, upper.range.end), u.len() as int);
            &&& edited(text, seq![upper, lower]) == both
            &&& edited(text, seq![lower, upper]) == both
        }),
{
    let t = encode_utf8(text);
    let a = splice_of(t, upper);
    let b = splice_of(t, lower);
    assert(splices_of(t, seq![upper, lower]) =~= seq![a, b]);
    assert(splices_of(t, seq![lower, upper]) =~= seq![b, a]);
    assert(seq![a, b].drop_last() =~= seq![a]);
    assert(seq![b, a].drop_last() =~= seq![b]);
    assert(seq![a].drop_last() =~= Seq::empty());
    assert(seq![b].drop_last() =~= Seq::empty());
    reveal_with_fuel(bottom_up, 3);
    reveal_with_fuel(placed, 3);
    assert(bottom_up(seq![a]) =~= seq![a]);
    assert(bottom_up(seq![b]) =~= seq![b]);
    assert(bottom_up(seq![a, b]) =~= seq![b, a]);
    assert(bottom_up(seq![b, a]) =~= seq![b, a]);
    reveal_with_fuel(patched, 3);
    assert(patched(t, seq![b]) == cut(t, b));
    assert(patched(t, seq![b, a]) == cut(cut(t, b), a));
}

} // verus!
