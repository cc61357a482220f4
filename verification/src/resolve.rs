//! From a symbol to a position.
//!
//! The caller names a symbol; a server wants a position. The text is scanned for
//! the places where the name stands as a whole word; the server tells which of
//! them it would rename, which drops strings and comments; and where several are
//! left, the references of the first tell whether they are all one symbol. The
//! scan proposes, the server decides.

use vstd::prelude::*;
use vstd::utf8::encode_utf8;

use crate::apply::lemma_encode_concat;
use crate::error::{plain_error, ToolError, ToolErrorView};
use crate::json::{
    array, as_str, as_u64, at, member, number_in, opt_view, text, text_in, unsigned, views,
    Json, JsonView, Members, Num,
};
use crate::text::{
    chars_of, debug_text, decimal, decimal_text, ends_with, find_char, first_index, is_word,
    lemma_first_index, lemma_first_index_bounds, lemma_parts_of_message, lines, lines_of,
    mentions, number_of, owned, parse_number, rows, same_text, slice_of, str_debug, trim_end,
    trim_end_text, utf16_len, utf16_width, without_cr, word_char, IntError,
};

verus! {

// ---------------------------------------------------------------------------
// Targets
// ---------------------------------------------------------------------------

/// What a caller points at: a symbol by its name, or a position.
#[derive(Debug)]
pub enum Target {
    Symbol(String),
    Position { line: usize, character: usize },
}

/// What a target means.
pub enum TargetView {
    Symbol(Seq<char>),
    Position { line: nat, character: nat },
}

impl View for Target {
    type V = TargetView;

    open spec fn view(&self) -> TargetView {
        match *self {
            Target::Symbol(s) => TargetView::Symbol(s@),
            Target::Position { line, character } => TargetView::Position {
                line: line as nat,
                character: character as nat,
            },
        }
    }
}

/// The target that a text spells: a position where it is two numbers around its
/// first `:`, a symbol otherwise.
pub open spec fn target_of(s: Seq<char>) -> TargetView {
    let k = first_index(s, ':');
    if k < s.len() {
        match (number_of(s.take(k)), number_of(s.skip(k + 1))) {
            (Ok(line), Ok(character)) => TargetView::Position { line, character },
            _ => TargetView::Symbol(s),
        }
    } else {
        TargetView::Symbol(s)
    }
}

/// Reads a target: `5:10` is a position, anything else the name of a symbol.
pub fn parse_target(s: &str) -> (r: Target)
    ensures
        r@ == target_of(s@),
{
    let chars = chars_of(s);
    let k: usize = find_char(&chars, 0, ':');
    assert(s@.skip(0) =~= s@);
    if k < chars.len() {
        let left = slice_of(&chars, 0, k);
        let right = slice_of(&chars, k + 1, chars.len());
        assert(left@ =~= s@.take(k as int));
        assert(right@ =~= s@.skip(k + 1));
        if let (Ok(line), Ok(character)) = (parse_number(&left), parse_number(&right)) {
            return Target::Position { line, character };
        }
    }
    Target::Symbol(owned(s))
}

/// Reading one digit more.
proof fn lemma_digits_push(s: Seq<char>, value: nat, d: nat)
    requires
        d < 10,
        crate::text::digits_onto(s, value) is Ok,
        (crate::text::digits_onto(s, value)->Ok_0) * 10 + d <= usize::MAX,
    ensures
        crate::text::digits_onto(s.push(crate::text::digit_char(d)), value) == Ok::<nat, IntError>(
            (crate::text::digits_onto(s, value)->Ok_0) * 10 + d,
        ),
    decreases s.len(),
{
    let c = crate::text::digit_char(d);
    let longer = s.push(c);
    if s.len() == 0 {
        reveal_with_fuel(crate::text::digits_onto, 2);
        assert(longer[0] == c);
        assert(longer.drop_first() =~= Seq::empty());
    } else {
        assert(longer.drop_first() =~= s.drop_first().push(c));
        let next = value * 10 + (s[0] as u32 - '0' as u32) as nat;
        lemma_digits_push(s.drop_first(), next, d);
    }
}

/// A number in decimal is made of digits and spells the number.
pub proof fn lemma_decimal_round_trip(n: nat)
    requires
        n <= usize::MAX,
    ensures
        number_of(decimal(n)) == Ok::<nat, IntError>(n),
        forall|i: int| 0 <= i < decimal(n).len() ==> '0' <= (#[trigger] decimal(n)[i]) <= '9',
        decimal(n).len() > 0,
    decreases n,
{
    if n < 10 {
        reveal_with_fuel(crate::text::digits_onto, 2);
        assert(decimal(n).drop_first() =~= Seq::empty());
    } else {
        lemma_decimal_round_trip(n / 10);
        lemma_digits_push(decimal(n / 10), 0, n % 10);
        assert(decimal(n)[0] == decimal(n / 10)[0]);
    }
}

/// A position written as `line:character` is read back.
pub proof fn lemma_position_round_trip(line: nat, character: nat)
    requires
        line <= usize::MAX,
        character <= usize::MAX,
    ensures
        target_of(decimal(line) + seq![':'] + decimal(character)) == (TargetView::Position {
            line,
            character,
        }),
{
    let l = decimal(line);
    let c = decimal(character);
    let s = l + seq![':'] + c;
    lemma_decimal_round_trip(line);
    lemma_decimal_round_trip(character);
    assert forall|j: int| 0 <= j < l.len() implies s[j] != ':' by {
        assert(s[j] == l[j]);
    }
    lemma_first_index(s, ':', l.len() as int);
    assert(s.take(l.len() as int) =~= l);
    assert(s.skip(l.len() as int + 1) =~= c);
}

/// A text without `:` names a symbol.
pub proof fn lemma_names_are_symbols(s: Seq<char>)
    requires
        !s.contains(':'),
    ensures
        target_of(s) == TargetView::Symbol(s),
{
    lemma_first_index_bounds(s, ':');
    let k = first_index(s, ':');
    if k < s.len() {
        assert(s[k] == ':');
    }
}

// ---------------------------------------------------------------------------
// Candidates
// ---------------------------------------------------------------------------

/// A place where a symbol's name stands.
#[derive(Debug)]
pub struct Candidate {
    pub line: usize,
    /// UTF-16 column of the first character.
    pub character: usize,
    pub line_text: String,
}

/// What a candidate says.
pub struct CandidateView {
    pub line: nat,
    pub character: nat,
    pub line_text: Seq<char>,
}

impl View for Candidate {
    type V = CandidateView;

    open spec fn view(&self) -> CandidateView {
        CandidateView {
            line: self.line as nat,
            character: self.character as nat,
            line_text: self.line_text@,
        }
    }
}

impl Clone for Candidate {
    fn clone(&self) -> (r: Self)
        ensures
            r@ == self@,
    {
        Candidate {
            line: self.line,
            character: self.character,
            line_text: owned(self.line_text.as_str()),
        }
    }
}

/// What a list of candidates says.
pub open spec fn candidate_views(list: Seq<Candidate>) -> Seq<CandidateView> {
    list.map_values(|c: Candidate| c@)
}

/// Whether the symbol stands at that place of a line as a whole word.
pub open spec fn occurs_at(line: Seq<char>, i: int, symbol: Seq<char>) -> bool {
    &&& 0 <= i
    &&& i + symbol.len() <= line.len()
    &&& line.subrange(i, i + symbol.len()) == symbol
    &&& i == 0 || !word_char(line[i - 1])
    &&& i + symbol.len() == line.len() || !word_char(line[i + symbol.len()])
}

/// The candidate at that place of a line.
pub open spec fn candidate_at(line: Seq<char>, number: nat, i: int) -> CandidateView {
    CandidateView { line: number, character: utf16_len(line.take(i)), line_text: trim_end(line) }
}

/// The candidates among the first `n` places of a line, in order.
pub open spec fn in_line(line: Seq<char>, number: nat, symbol: Seq<char>, n: nat) -> Seq<
    CandidateView,
>
    decreases n,
{
    if n == 0 {
        Seq::empty()
    } else {
        let before = in_line(line, number, symbol, (n - 1) as nat);
        if occurs_at(line, n - 1, symbol) {
            before.push(candidate_at(line, number, n - 1))
        } else {
            before
        }
    }
}

/// The candidates in a list of lines, in order.
pub open spec fn in_lines(list: Seq<Seq<char>>, symbol: Seq<char>) -> Seq<CandidateView>
    decreases list.len(),
{
    if list.len() == 0 {
        Seq::empty()
    } else {
        in_lines(list.drop_last(), symbol) + in_line(
            list.last(),
            (list.len() - 1) as nat,
            symbol,
            list.last().len(),
        )
    }
}

/// The places of a text where a symbol's name stands as a whole word.
pub open spec fn candidates_of(text: Seq<char>, symbol: Seq<char>) -> Seq<CandidateView> {
    if symbol.len() == 0 {
        Seq::empty()
    } else {
        in_lines(lines_of(text), symbol)
    }
}

/// A text takes no more UTF-16 code units than UTF-8 bytes.
proof fn lemma_utf16_bound(s: Seq<char>)
    ensures
        utf16_len(s) <= encode_utf8(s).len(),
    decreases s.len(),
{
    if s.len() > 0 {
        let shorter = s.drop_last();
        let c = seq![s.last()];
        lemma_utf16_bound(shorter);
        lemma_encode_concat(shorter, c);
        assert(s =~= shorter + c);
        assert(c.drop_first() =~= Seq::empty());
        reveal_with_fuel(encode_utf8, 2);
        assert(encode_utf8(c) =~= vstd::utf8::encode_scalar(c[0] as u32));
    }
}

/// A piece of a text takes no more bytes than the text.
proof fn lemma_piece_bound(s: Seq<char>, from: int, to: int)
    requires
        0 <= from <= to <= s.len(),
    ensures
        encode_utf8(s.subrange(from, to)).len() <= encode_utf8(s).len(),
{
    let a = s.subrange(0, from);
    let b = s.subrange(from, to);
    let c = s.subrange(to, s.len() as int);
    assert(s =~= a + b + c);
    lemma_encode_concat(a, b);
    lemma_encode_concat(a + b, c);
}

/// A line takes no more bytes than the text that it stands in.
proof fn lemma_line_bound(text: Seq<char>, k: int)
    requires
        0 <= k < lines_of(text).len(),
    ensures
        encode_utf8(lines_of(text)[k]).len() <= encode_utf8(text).len(),
    decreases text.len(),
{
    let j = first_index(text, '\n');
    lemma_first_index_bounds(text, '\n');
    if text.len() > 0 && j < text.len() {
        if k == 0 {
            let line = text.take(j);
            let end = without_cr(line).len() as int;
            assert(without_cr(line) =~= text.subrange(0, end));
            lemma_piece_bound(text, 0, end);
        } else {
            let rest = text.skip(j + 1);
            assert(lines_of(text)[k] == lines_of(rest)[k - 1]);
            lemma_line_bound(rest, k - 1);
            assert(rest =~= text.subrange(j + 1, text.len() as int));
            lemma_piece_bound(text, j + 1, text.len() as int);
        }
    }
}

/// Whether the symbol stands at that place of a line as a whole word.
fn stands_at(line: &Vec<char>, i: usize, symbol: &Vec<char>) -> (r: bool)
    requires
        i <= line@.len(),
    ensures
        r == occurs_at(line@, i as int, symbol@),
{
    if symbol.len() > line.len() - i {
        return false;
    }
    let mut k: usize = 0;
    while k < symbol.len()
        invariant
            i + symbol.len() <= line.len(),
            k <= symbol@.len(),
            forall|j: int| 0 <= j < k ==> line@[i + j] == symbol@[j],
        decreases symbol@.len() - k,
    {
        if line[i + k] != symbol[k] {
            assert(line@.subrange(i as int, i + symbol@.len())[k as int] != symbol@[k as int]);
            return false;
        }
        k += 1;
    }
    assert(line@.subrange(i as int, i + symbol@.len()) =~= symbol@);
    let end: usize = i + symbol.len();
    (i == 0 || !is_word(line[i - 1])) && (end == line.len() || !is_word(line[end]))
}

/// The UTF-16 code units that one character takes.
fn width(c: char) -> (r: usize)
    ensures
        r == utf16_width(c),
{
    if c as u32 >= 0x10000 {
        2
    } else {
        1
    }
}

/// Adds the candidates of one line.
fn scan_line(out: &mut Vec<Candidate>, line: &Vec<char>, number: usize, symbol: &Vec<char>)
    requires
        encode_utf8(line@).len() <= usize::MAX,
    ensures
        candidate_views(final(out)@) == candidate_views(old(out)@) + in_line(
            line@,
            number as nat,
            symbol@,
            line@.len(),
        ),
{
    let ghost before = candidate_views(out@);
    let mut col: usize = 0;
    let mut i: usize = 0;
    assert(line@.take(0) =~= Seq::empty());
    assert(candidate_views(out@) =~= before + in_line(line@, number as nat, symbol@, 0));
    while i < line.len()
        invariant
            i <= line@.len(),
            encode_utf8(line@).len() <= usize::MAX,
            col == utf16_len(line@.take(i as int)),
            candidate_views(out@) == before + in_line(line@, number as nat, symbol@, i as nat),
        decreases line@.len() - i,
    {
        let ghost so_far = out@;
        let ghost found = in_line(line@, number as nat, symbol@, i as nat);
        if stands_at(line, i, symbol) {
            let line_text = trim_end_text(line);
            let c = Candidate { line: number, character: col, line_text };
            out.push(c);
            proof {
                assert(c@ == candidate_at(line@, number as nat, i as int));
                assert(candidate_views(out@) =~= candidate_views(so_far).push(c@));
                assert(candidate_views(out@) =~= before + found.push(c@));
            }
        }
        proof {
            let next = line@.take(i + 1);
            assert(next.drop_last() =~= line@.take(i as int));
            lemma_utf16_bound(next);
            assert(next =~= line@.subrange(0, i + 1));
            lemma_piece_bound(line@, 0, i + 1);
        }
        col = col + width(line[i]);
        i += 1;
    }
}

/// The places where `symbol` stands in `text` as a whole word, with UTF-16
/// columns. Strings and comments count here; the server sorts them out.
pub fn lexical_candidates(text: &str, symbol: &str) -> (r: Vec<Candidate>)
    ensures
        candidate_views(r@) == candidates_of(text@, symbol@),
{
    let mut out: Vec<Candidate> = Vec::new();
    let name = chars_of(symbol);
    assert(candidate_views(out@) =~= Seq::empty());
    if name.len() == 0 {
        return out;
    }
    let size: usize = text.as_bytes().len();
    let chars = chars_of(text);
    let all = lines(&chars);
    let ghost list = rows(all@);
    let mut k: usize = 0;
    assert(list.take(0) =~= Seq::empty());
    while k < all.len()
        invariant
            k <= all@.len(),
            list == rows(all@),
            list == lines_of(text@),
            name@ == symbol@,
            size == encode_utf8(text@).len(),
            candidate_views(out@) == in_lines(list.take(k as int), symbol@),
        decreases all@.len() - k,
    {
        proof {
            lemma_line_bound(text@, k as int);
            let part = list.take(k + 1);
            assert(part.last() == all@[k as int]@);
            assert(part.drop_last() =~= list.take(k as int));
        }
        scan_line(&mut out, &all[k], k, &name);
        k += 1;
    }
    assert(list.take(k as int) =~= list);
    out
}

/// What a scan finds in one line: the places where the name stands, in order.
proof fn lemma_in_line(line: Seq<char>, number: nat, symbol: Seq<char>, n: nat)
    requires
        n <= line.len(),
    ensures
        forall|i: int|
            0 <= i < n && #[trigger] occurs_at(line, i, symbol) ==> in_line(
                line,
                number,
                symbol,
                n,
            ).contains(candidate_at(line, number, i)),
        forall|k: int|
            0 <= k < in_line(line, number, symbol, n).len() ==> found_in(
                line,
                number,
                symbol,
                n,
                #[trigger] in_line(line, number, symbol, n)[k],
            ),
    decreases n,
{
    if n > 0 {
        let m = (n - 1) as nat;
        lemma_in_line(line, number, symbol, m);
        let before = in_line(line, number, symbol, m);
        let all = in_line(line, number, symbol, n);
        assert forall|i: int| 0 <= i < n && #[trigger] occurs_at(line, i, symbol) implies all.contains(
            candidate_at(line, number, i),
        ) by {
            let c = candidate_at(line, number, i);
            if i < m {
                assert(before.contains(c));
                let k = choose|k: int| 0 <= k < before.len() && before[k] == c;
                assert(all[k] == c);
            } else {
                assert(all[all.len() - 1] == c);
            }
        }
        assert forall|k: int| 0 <= k < all.len() implies found_in(
            line,
            number,
            symbol,
            n,
            #[trigger] all[k],
        ) by {
            if k < before.len() {
                assert(all[k] == before[k]);
                assert(found_in(line, number, symbol, m, before[k]));
                let i = choose|i: int|
                    0 <= i < m && #[trigger] occurs_at(line, i, symbol) && before[k]
                        == candidate_at(line, number, i);
                assert(occurs_at(line, i, symbol));
            } else {
                assert(occurs_at(line, m as int, symbol));
            }
        }
    }
}

/// Whether a candidate is one of the first `n` places of a line.
pub open spec fn found_in(
    line: Seq<char>,
    number: nat,
    symbol: Seq<char>,
    n: nat,
    c: CandidateView,
) -> bool {
    exists|i: int|
        0 <= i < n && #[trigger] occurs_at(line, i, symbol) && c == candidate_at(line, number, i)
}

proof fn lemma_in_lines(list: Seq<Seq<char>>, symbol: Seq<char>)
    ensures
        forall|k: int, i: int|
            0 <= k < list.len() && 0 <= i < list[k].len() && #[trigger] occurs_at(
                list[k],
                i,
                symbol,
            ) ==> in_lines(list, symbol).contains(candidate_at(list[k], k as nat, i)),
        forall|j: int|
            0 <= j < in_lines(list, symbol).len() ==> {
                let c = #[trigger] in_lines(list, symbol)[j];
                c.line < list.len() && found_in(
                    list[c.line as int],
                    c.line,
                    symbol,
                    list[c.line as int].len(),
                    c,
                )
            },
    decreases list.len(),
{
    if list.len() > 0 {
        let shorter = list.drop_last();
        let n = (list.len() - 1) as nat;
        lemma_in_lines(shorter, symbol);
        lemma_in_line(list.last(), n, symbol, list.last().len());
        let a = in_lines(shorter, symbol);
        let b = in_line(list.last(), n, symbol, list.last().len());
        let all = in_lines(list, symbol);
        assert forall|k: int, i: int|
            0 <= k < list.len() && 0 <= i < list[k].len() && #[trigger] occurs_at(
                list[k],
                i,
                symbol,
            ) implies all.contains(candidate_at(list[k], k as nat, i)) by {
            let c = candidate_at(list[k], k as nat, i);
            if k < n {
                assert(shorter[k] == list[k]);
                assert(a.contains(c));
                let q = choose|q: int| 0 <= q < a.len() && a[q] == c;
                assert(all[q] == c);
            } else {
                assert(b.contains(c));
                let q = choose|q: int| 0 <= q < b.len() && b[q] == c;
                assert(all[a.len() + q] == c);
            }
        }
        assert forall|j: int| 0 <= j < all.len() implies {
            let c = #[trigger] all[j];
            c.line < list.len() && found_in(
                list[c.line as int],
                c.line,
                symbol,
                list[c.line as int].len(),
                c,
            )
        } by {
            if j < a.len() {
                assert(all[j] == a[j]);
                assert(shorter[a[j].line as int] == list[a[j].line as int]);
            } else {
                assert(all[j] == b[j - a.len()]);
                assert(found_in(list.last(), n, symbol, list.last().len(), b[j - a.len()]));
            }
        }
    }
}

/// The scan finds every place where the name stands as a whole word, and nothing
/// else: what it lists at line `k` is a place of that line, and each place is listed.
pub proof fn lemma_candidates_exact(text: Seq<char>, symbol: Seq<char>)
    requires
        symbol.len() > 0,
    ensures
        forall|k: int, i: int|
            0 <= k < lines_of(text).len() && #[trigger] occurs_at(lines_of(text)[k], i, symbol)
                ==> candidates_of(text, symbol).contains(
                candidate_at(lines_of(text)[k], k as nat, i),
            ),
        forall|j: int|
            0 <= j < candidates_of(text, symbol).len() ==> {
                let c = #[trigger] candidates_of(text, symbol)[j];
                c.line < lines_of(text).len() && found_in(
                    lines_of(text)[c.line as int],
                    c.line,
                    symbol,
                    lines_of(text)[c.line as int].len(),
                    c,
                )
            },
{
    lemma_in_lines(lines_of(text), symbol);
}

// ---------------------------------------------------------------------------
// Resolution
// ---------------------------------------------------------------------------

/// A candidate as it is reported.
pub open spec fn candidate_json(c: CandidateView) -> JsonView {
    JsonView::Object(
        Map::<Seq<char>, JsonView>::empty().insert(
            "line"@,
            JsonView::Num(Num::Unsigned(c.line as u64)),
        ).insert("character"@, JsonView::Num(Num::Unsigned(c.character as u64))).insert(
            "text"@,
            JsonView::Text(c.line_text),
        ),
    )
}

/// Candidates as they are reported.
pub open spec fn candidates_json(list: Seq<CandidateView>) -> JsonView {
    JsonView::Array(list.map_values(|c: CandidateView| candidate_json(c)))
}

impl Candidate {
    fn to_json(&self) -> (r: Json)
        ensures
            r@ == candidate_json(self@),
    {
        Members::new().with("line", unsigned(self.line as u64)).with(
            "character",
            unsigned(self.character as u64),
        ).with("text", text(self.line_text.as_str())).object()
    }
}

fn list_json(list: &Vec<Candidate>) -> (r: Json)
    ensures
        r@ == candidates_json(candidate_views(list@)),
{
    let mut out: Vec<Json> = Vec::new();
    let mut i: usize = 0;
    let ghost all = candidate_views(list@).map_values(|c: CandidateView| candidate_json(c));
    while i < list.len()
        invariant
            i <= list@.len(),
            all == candidate_views(list@).map_values(|c: CandidateView| candidate_json(c)),
            views(out@) == all.take(i as int),
        decreases list@.len() - i,
    {
        let j = list[i].to_json();
        let ghost before = out@;
        out.push(j);
        i += 1;
        assert(views(out@) =~= views(before).push(j@));
        assert(views(out@) =~= all.take(i as int));
    }
    assert(views(out@) =~= all);
    array(out)
}

/// Whether one place comes before another: by line, and then by column.
pub open spec fn place_less(a: (int, int), b: (int, int)) -> bool {
    a.0 < b.0 || (a.0 == b.0 && a.1 < b.1)
}

/// The place that a position names, where it has both a line and a column.
pub open spec fn place_in(position: JsonView) -> Option<(int, int)> {
    match (as_u64(at(position, "line"@)), as_u64(at(position, "character"@))) {
        (Some(line), Some(character)) => Some((line as int, character as int)),
        _ => None,
    }
}

/// Whether a location of a reference spans the candidate's position: its range
/// starts there or before, and ends behind it.
pub open spec fn covers(loc: JsonView, uri: Seq<char>, c: CandidateView) -> bool {
    let range = at(loc, "range"@);
    let here = (c.line as int, c.character as int);
    &&& as_str(at(loc, "uri"@)) == Some(uri)
    &&& match (place_in(at(range, "start"@)), place_in(at(range, "end"@))) {
        (Some(start), Some(end)) => !place_less(here, start) && place_less(here, end),
        _ => false,
    }
}

/// Whether one of the reference ranges in `uri` spans the candidate's position.
pub open spec fn covered_by(locations: Seq<JsonView>, uri: Seq<char>, c: CandidateView) -> bool {
    exists|i: int| 0 <= i < locations.len() && covers(#[trigger] locations[i], uri, c)
}

/// Reads a position: its line and its column.
fn read_place(position: Option<&Json>) -> (r: Option<(u64, u64)>)
    ensures
        match r {
            Some((line, character)) => place_in(opt_view(position)) == Some(
                (line as int, character as int),
            ),
            None => place_in(opt_view(position)) is None,
        },
{
    match (number_in(member(position, "line")), number_in(member(position, "character"))) {
        (Some(line), Some(character)) => Some((line, character)),
        _ => None,
    }
}

/// Whether the candidate's position is inside one of the reference ranges in `uri`.
pub fn covered(locations: &Vec<Json>, uri: &str, c: &Candidate) -> (r: bool)
    ensures
        r == covered_by(views(locations@), uri@, c@),
{
    let line: u64 = c.line as u64;
    let character: u64 = c.character as u64;
    let mut i: usize = 0;
    while i < locations.len()
        invariant
            i <= locations@.len(),
            line == c.line,
            character == c.character,
            forall|k: int| 0 <= k < i ==> !covers(#[trigger] views(locations@)[k], uri@, c@),
        decreases locations@.len() - i,
    {
        let loc: &Json = &locations[i];
        let range = loc.get("range");
        let here = match text_in(loc.get("uri")) {
            Some(u) => same_text(u, uri),
            None => false,
        };
        let inside = match (read_place(member(range, "start")), read_place(member(range, "end"))) {
            (Some(start), Some(end)) => {
                let begun = start.0 < line || (start.0 == line && start.1 <= character);
                let open = line < end.0 || (line == end.0 && character < end.1);
                begun && open
            },
            _ => false,
        };
        assert(views(locations@)[i as int] == loc@);
        if here && inside {
            assert(covers(views(locations@)[i as int], uri@, c@));
            return true;
        }
        i += 1;
    }
    false
}

/// What is known of the references of the first verified candidate.
#[derive(Debug)]
pub enum References {
    /// Nobody asked for them yet.
    Unasked,
    /// The server cannot tell them.
    Unavailable,
    /// The server's answer.
    Known(Vec<Json>),
}

/// What is known of references.
pub enum ReferencesView {
    Unasked,
    Unavailable,
    Known(Seq<JsonView>),
}

impl View for References {
    type V = ReferencesView;

    open spec fn view(&self) -> ReferencesView {
        match *self {
            References::Unasked => ReferencesView::Unasked,
            References::Unavailable => ReferencesView::Unavailable,
            References::Known(l) => ReferencesView::Known(views(l@)),
        }
    }
}

/// What became of a symbol.
#[derive(Debug)]
pub enum Resolution {
    /// It stands at this position.
    Found { line: usize, character: usize },
    /// Several candidates are left; the references from this position tell whether
    /// they are one symbol.
    AskReferences { line: usize, character: usize },
    /// It cannot be pinned down.
    Failed(ToolError),
}

/// What became of a symbol.
pub enum ResolutionView {
    Found { line: nat, character: nat },
    AskReferences { line: nat, character: nat },
    Failed(ToolErrorView),
}

impl View for Resolution {
    type V = ResolutionView;

    open spec fn view(&self) -> ResolutionView {
        match *self {
            Resolution::Found { line, character } => ResolutionView::Found {
                line: line as nat,
                character: character as nat,
            },
            Resolution::AskReferences { line, character } => ResolutionView::AskReferences {
                line: line as nat,
                character: character as nat,
            },
            Resolution::Failed(e) => ResolutionView::Failed(e@),
        }
    }
}

/// The failure where the name does not stand in the file.
pub open spec fn not_found_error(symbol: Seq<char>, file: Seq<char>) -> ToolErrorView {
    plain_error("symbol "@ + str_debug(symbol) + " not found in "@ + file)
}

/// The failure where the server would rename none of the occurrences.
pub open spec fn not_renameable_error(
    symbol: Seq<char>,
    file: Seq<char>,
    candidates: Seq<CandidateView>,
) -> ToolErrorView {
    ToolErrorView {
        message: decimal(candidates.len()) + " occurrence(s) of "@ + str_debug(symbol) + " in "@
            + file + ", but none is a renameable symbol (strings/comments?)"@,
        data: Some(
            JsonView::Object(
                Map::<Seq<char>, JsonView>::empty().insert(
                    "occurrences"@,
                    candidates_json(candidates),
                ),
            ),
        ),
    }
}

/// The failure where the occurrences are not all one symbol.
pub open spec fn ambiguous_error(
    symbol: Seq<char>,
    file: Seq<char>,
    verified: Seq<CandidateView>,
) -> ToolErrorView {
    ToolErrorView {
        message: str_debug(symbol) + " is ambiguous in "@ + file + ": "@ + decimal(verified.len())
            + " distinct occurrences verified as symbols; disambiguate with line:char"@,
        data: Some(
            JsonView::Object(
                Map::<Seq<char>, JsonView>::empty().insert(
                    "candidates"@,
                    candidates_json(verified),
                ).insert(
                    "hint"@,
                    JsonView::Text(
                        "re-run with an explicit position target: <line>:<character> (zero-indexed)"@,
                    ),
                ),
            ),
        ),
    }
}

/// Whether the references cover every verified candidate but the first.
pub open spec fn one_symbol(
    locations: Seq<JsonView>,
    uri: Seq<char>,
    verified: Seq<CandidateView>,
) -> bool {
    forall|i: int| 1 <= i < verified.len() ==> covered_by(locations, uri, #[trigger] verified[i])
}

/// What becomes of a symbol, given its occurrences, those of them that the
/// server would rename, and what is known of the references of the first.
pub open spec fn resolution(
    uri: Seq<char>,
    file: Seq<char>,
    symbol: Seq<char>,
    candidates: Seq<CandidateView>,
    verified: Seq<CandidateView>,
    references: ReferencesView,
) -> ResolutionView {
    if candidates.len() == 0 {
        ResolutionView::Failed(not_found_error(symbol, file))
    } else if verified.len() == 0 {
        ResolutionView::Failed(not_renameable_error(symbol, file, candidates))
    } else {
        let line = verified[0].line;
        let character = verified[0].character;
        if verified.len() == 1 {
            ResolutionView::Found { line, character }
        } else {
            match references {
                ReferencesView::Unasked => ResolutionView::AskReferences { line, character },
                ReferencesView::Unavailable => ResolutionView::Failed(
                    ambiguous_error(symbol, file, verified),
                ),
                ReferencesView::Known(locations) => if one_symbol(locations, uri, verified) {
                    ResolutionView::Found { line, character }
                } else {
                    ResolutionView::Failed(ambiguous_error(symbol, file, verified))
                },
            }
        }
    }
}

fn not_found(symbol: &str, file: &str) -> (r: ToolError)
    ensures
        r@ == not_found_error(symbol@, file@),
{
    let mut m = owned("symbol ");
    let shown = debug_text(symbol);
    m.append(shown.as_str());
    m.append(" not found in ");
    m.append(file);
    ToolError::new(m)
}

fn not_renameable(symbol: &str, file: &str, candidates: &Vec<Candidate>) -> (r: ToolError)
    ensures
        r@ == not_renameable_error(symbol@, file@, candidate_views(candidates@)),
{
    let mut m = decimal_text(candidates.len() as u64);
    m.append(" occurrence(s) of ");
    let shown = debug_text(symbol);
    m.append(shown.as_str());
    m.append(" in ");
    m.append(file);
    m.append(", but none is a renameable symbol (strings/comments?)");
    let data = Members::new().with("occurrences", list_json(candidates)).object();
    ToolError::with_data(m, data)
}

fn ambiguous(symbol: &str, file: &str, verified: &Vec<Candidate>) -> (r: ToolError)
    ensures
        r@ == ambiguous_error(symbol@, file@, candidate_views(verified@)),
{
    let mut m = debug_text(symbol);
    m.append(" is ambiguous in ");
    m.append(file);
    m.append(": ");
    let count = decimal_text(verified.len() as u64);
    m.append(count.as_str());
    m.append(" distinct occurrences verified as symbols; disambiguate with line:char");
    let data = Members::new().with("candidates", list_json(verified)).with(
        "hint",
        text("re-run with an explicit position target: <line>:<character> (zero-indexed)"),
    ).object();
    ToolError::with_data(m, data)
}

fn all_covered(locations: &Vec<Json>, uri: &str, verified: &Vec<Candidate>) -> (r: bool)
    ensures
        r == one_symbol(views(locations@), uri@, candidate_views(verified@)),
{
    let mut i: usize = 1;
    while i < verified.len()
        invariant
            1 <= i,
            forall|k: int|
                1 <= k < i && k < verified@.len() ==> covered_by(
                    views(locations@),
                    uri@,
                    #[trigger] candidate_views(verified@)[k],
                ),
        decreases verified@.len() - i,
    {
        assert(candidate_views(verified@)[i as int] == verified@[i as int]@);
        if !covered(locations, uri, &verified[i]) {
            return false;
        }
        i += 1;
    }
    true
}

/// Resolves a symbol to one position, or fails with an error that says what to
/// do about it. Several verified candidates are one symbol exactly where the
/// references of the first cover the others.
pub fn resolve_symbol(
    uri: &str,
    file: &str,
    symbol: &str,
    candidates: &Vec<Candidate>,
    verified: &Vec<Candidate>,
    references: &References,
) -> (r: Resolution)
    ensures
        r@ == resolution(
            uri@,
            file@,
            symbol@,
            candidate_views(candidates@),
            candidate_views(verified@),
            references@,
        ),
{
    if candidates.len() == 0 {
        return Resolution::Failed(not_found(symbol, file));
    }
    if verified.len() == 0 {
        return Resolution::Failed(not_renameable(symbol, file, candidates));
    }
    assert(candidate_views(verified@)[0] == verified@[0]@);
    let line: usize = verified[0].line;
    let character: usize = verified[0].character;
    if verified.len() == 1 {
        return Resolution::Found { line, character };
    }
    match references {
        References::Unasked => Resolution::AskReferences { line, character },
        References::Unavailable => Resolution::Failed(ambiguous(symbol, file, verified)),
        References::Known(locations) => if all_covered(locations, uri, verified) {
            Resolution::Found { line, character }
        } else {
            Resolution::Failed(ambiguous(symbol, file, verified))
        },
    }
}

/// A symbol is never guessed: where a position is found among several verified
/// candidates, the references of the first cover all the others, and where they
/// do not, every verified candidate is listed in the failure.
pub proof fn lemma_never_guesses(
    uri: Seq<char>,
    file: Seq<char>,
    symbol: Seq<char>,
    candidates: Seq<CandidateView>,
    verified: Seq<CandidateView>,
    references: ReferencesView,
)
    requires
        candidates.len() > 0,
        verified.len() > 1,
        references !is Unasked,
    ensures
        ({
            let r = resolution(uri, file, symbol, candidates, verified, references);
            let same = match references {
                ReferencesView::Known(l) => one_symbol(l, uri, verified),
                _ => false,
            };
            &&& same ==> r == (ResolutionView::Found {
                line: verified[0].line,
                character: verified[0].character,
            })
            &&& !same ==> match r {
                ResolutionView::Failed(e) => match e.data {
                    Some(d) => at(d, "candidates"@) == candidates_json(verified),
                    None => false,
                },
                _ => false,
            }
        }),
{
    reveal_strlit("candidates");
    reveal_strlit("hint");
    assert("candidates"@.len() != "hint"@.len());
}

// ---------------------------------------------------------------------------
// What holds of candidates and of what they resolve to
// ---------------------------------------------------------------------------

/// More of a line takes more code units.
proof fn lemma_utf16_grows(line: Seq<char>, i: int, j: int)
    requires
        0 <= i < j <= line.len(),
    ensures
        utf16_len(line.take(i)) < utf16_len(line.take(j)),
    decreases j - i,
{
    assert(line.take(j).drop_last() =~= line.take(j - 1));
    if i < j - 1 {
        lemma_utf16_grows(line, i, j - 1);
    }
}

/// Whether candidates come in the order in which a reader meets them.
pub open spec fn in_reading_order(list: Seq<CandidateView>) -> bool {
    forall|i: int, j: int|
        #![trigger list[i], list[j]]
        0 <= i < j < list.len() ==> list[i].line < list[j].line || (list[i].line == list[j].line
            && list[i].character < list[j].character)
}

proof fn lemma_line_order(line: Seq<char>, number: nat, symbol: Seq<char>, n: nat)
    requires
        n <= line.len(),
    ensures
        in_reading_order(in_line(line, number, symbol, n)),
        forall|k: int|
            0 <= k < in_line(line, number, symbol, n).len() ==> (#[trigger] in_line(
                line,
                number,
                symbol,
                n,
            )[k]).line == number && in_line(line, number, symbol, n)[k].character < utf16_len(
                line.take(n as int),
            ),
    decreases n,
{
    if n > 0 {
        let m = (n - 1) as nat;
        lemma_line_order(line, number, symbol, m);
        lemma_utf16_grows(line, m as int, n as int);
        let before = in_line(line, number, symbol, m);
        let all = in_line(line, number, symbol, n);
        assert forall|k: int| 0 <= k < all.len() implies (#[trigger] all[k]).line == number
            && all[k].character < utf16_len(line.take(n as int)) by {
            if k < before.len() {
                assert(all[k] == before[k]);
            }
        }
        assert forall|i: int, j: int|
            #![trigger all[i], all[j]]
            0 <= i < j < all.len() implies all[i].line < all[j].line || (all[i].line == all[j].line
            && all[i].character < all[j].character) by {
            assert(all[i] == before[i]);
            if j < before.len() {
                assert(all[j] == before[j]);
            }
        }
    }
}

proof fn lemma_lines_order(list: Seq<Seq<char>>, symbol: Seq<char>)
    ensures
        in_reading_order(in_lines(list, symbol)),
        forall|k: int|
            0 <= k < in_lines(list, symbol).len() ==> (#[trigger] in_lines(list, symbol)[k]).line
                < list.len(),
    decreases list.len(),
{
    if list.len() > 0 {
        let n = (list.len() - 1) as nat;
        lemma_lines_order(list.drop_last(), symbol);
        lemma_line_order(list.last(), n, symbol, list.last().len());
        let a = in_lines(list.drop_last(), symbol);
        let b = in_line(list.last(), n, symbol, list.last().len());
        let all = in_lines(list, symbol);
        assert forall|k: int| 0 <= k < all.len() implies (#[trigger] all[k]).line
            < list.len() by {
            if k < a.len() {
                assert(all[k] == a[k]);
            } else {
                assert(all[k] == b[k - a.len()]);
            }
        }
        assert forall|i: int, j: int|
            #![trigger all[i], all[j]]
            0 <= i < j < all.len() implies all[i].line < all[j].line || (all[i].line == all[j].line
            && all[i].character < all[j].character) by {
            if j < a.len() {
                assert(all[i] == a[i] && all[j] == a[j]);
            } else if i < a.len() {
                assert(all[i] == a[i] && all[j] == b[j - a.len()]);
            } else {
                assert(all[i] == b[i - a.len()] && all[j] == b[j - a.len()]);
            }
        }
    }
}

/// The scan lists the places of a name from the top of the text to its bottom, no
/// place twice, each with the text of the line that it is on; and an empty name
/// stands nowhere.
pub proof fn lemma_candidates_in_order(text: Seq<char>, symbol: Seq<char>)
    ensures
        in_reading_order(candidates_of(text, symbol)),
        forall|k: int|
            0 <= k < candidates_of(text, symbol).len() ==> {
                let c = #[trigger] candidates_of(text, symbol)[k];
                &&& c.line < lines_of(text).len()
                &&& c.line_text == trim_end(lines_of(text)[c.line as int])
            },
        symbol.len() == 0 ==> candidates_of(text, symbol).len() == 0,
{
    if symbol.len() > 0 {
        lemma_lines_order(lines_of(text), symbol);
        lemma_in_lines(lines_of(text), symbol);
    }
}

/// A position that resolution finds is where the first verified candidate stands,
/// however many there are and whatever is known of references; with nothing verified
/// none is found, and with one verified candidate nothing more is needed.
pub proof fn lemma_found_is_verified(
    uri: Seq<char>,
    file: Seq<char>,
    symbol: Seq<char>,
    candidates: Seq<CandidateView>,
    verified: Seq<CandidateView>,
    references: ReferencesView,
)
    ensures
        match resolution(uri, file, symbol, candidates, verified, references) {
            ResolutionView::Found { line, character } => verified.len() > 0 && candidates.len() > 0
                && line == verified[0].line && character == verified[0].character,
            ResolutionView::AskReferences { line, character } => verified.len() > 1
                && references is Unasked && line == verified[0].line && character
                == verified[0].character,
            ResolutionView::Failed(_) => candidates.len() == 0 || verified.len() == 0
                || verified.len() > 1 && references !is Unasked,
        },
        candidates.len() > 0 && verified.len() == 1 ==> resolution(
            uri,
            file,
            symbol,
            candidates,
            verified,
            references,
        ) is Found,
        candidates.len() > 0 && verified.len() > 1 && references is Unasked ==> resolution(
            uri,
            file,
            symbol,
            candidates,
            verified,
            references,
        ) is AskReferences,
{
}

/// Whether a list of places reports candidates, one by one: their lines and columns
/// counted from zero, as a position target wants them, and the text of their lines.
pub open spec fn reports(list: JsonView, candidates: Seq<CandidateView>) -> bool {
    match list {
        JsonView::Array(items) => items.len() == candidates.len() && forall|k: int|
            #![trigger items[k]]
            0 <= k < items.len() ==> {
                &&& at(items[k], "line"@) == JsonView::Num(
                    Num::Unsigned(candidates[k].line as u64),
                )
                &&& at(items[k], "character"@) == JsonView::Num(
                    Num::Unsigned(candidates[k].character as u64),
                )
                &&& at(items[k], "text"@) == JsonView::Text(candidates[k].line_text)
            },
        _ => false,
    }
}

/// A failure hands the caller what there is to choose from: every occurrence where
/// the server would rename none, and every verified candidate where they are not
/// one symbol; and where the name does not stand in the file there is nothing to hand.
pub proof fn lemma_failures_list_candidates(
    uri: Seq<char>,
    file: Seq<char>,
    symbol: Seq<char>,
    candidates: Seq<CandidateView>,
    verified: Seq<CandidateView>,
    references: ReferencesView,
)
    ensures
        match resolution(uri, file, symbol, candidates, verified, references) {
            ResolutionView::Failed(e) => match e.data {
                Some(d) => if verified.len() == 0 {
                    candidates.len() > 0 && reports(at(d, "occurrences"@), candidates)
                } else {
                    reports(at(d, "candidates"@), verified)
                },
                None => candidates.len() == 0,
            },
            _ => true,
        },
{
    reveal_strlit("candidates");
    reveal_strlit("hint");
    reveal_strlit("line");
    reveal_strlit("character");
    reveal_strlit("text");
    assert("candidates"@.len() != "hint"@.len());
    assert("line"@[0] != "text"@[0]);
    assert("line"@.len() != "character"@.len());
}

/// A range covers the places from its start on and before its end, by line and then
/// by column, in its own document alone.
pub proof fn lemma_covers(
    loc: JsonView,
    uri: Seq<char>,
    c: CandidateView,
    start: (u64, u64),
    end: (u64, u64),
)
    requires
        at(at(at(loc, "range"@), "start"@), "line"@) == JsonView::Num(Num::Unsigned(start.0)),
        at(at(at(loc, "range"@), "start"@), "character"@) == JsonView::Num(
            Num::Unsigned(start.1),
        ),
        at(at(at(loc, "range"@), "end"@), "line"@) == JsonView::Num(Num::Unsigned(end.0)),
        at(at(at(loc, "range"@), "end"@), "character"@) == JsonView::Num(Num::Unsigned(end.1)),
    ensures
        covers(loc, uri, c) <==> at(loc, "uri"@) == JsonView::Text(uri) && (start.0 < c.line
            || start.0 == c.line && start.1 <= c.character) && (c.line < end.0 || c.line == end.0
            && c.character < end.1),
{
}

/// A name stands at a place of a line exactly where it is written there and nothing
/// that could belong to a longer name touches it.
pub proof fn lemma_whole_words(before: Seq<char>, symbol: Seq<char>, behind: Seq<char>)
    ensures
        occurs_at(before + symbol + behind, before.len() as int, symbol) <==> (before.len() == 0
            || !word_char(before.last())) && (behind.len() == 0 || !word_char(behind[0])),
{
    let line = before + symbol + behind;
    let i = before.len() as int;
    assert(line.subrange(i, i + symbol.len()) =~= symbol);
    if before.len() > 0 {
        assert(line[i - 1] == before.last());
    }
    if behind.len() > 0 {
        assert(line[i + symbol.len()] == behind[0]);
    }
}

/// A failure names the symbol and the file that it is about, and says how many places
/// there are to choose from.
pub proof fn lemma_failures_name_the_symbol(
    symbol: Seq<char>,
    file: Seq<char>,
    candidates: Seq<CandidateView>,
)
    ensures
        mentions(not_found_error(symbol, file).message, str_debug(symbol)),
        ends_with(not_found_error(symbol, file).message, file),
        ({
            let m = not_renameable_error(symbol, file, candidates).message;
            &&& mentions(m, str_debug(symbol)) && mentions(m, file)
            &&& mentions(m, decimal(candidates.len()))
        }),
        ({
            let m = ambiguous_error(symbol, file, candidates).message;
            &&& mentions(m, str_debug(symbol)) && mentions(m, file)
            &&& mentions(m, decimal(candidates.len()))
        }),
{
    let s = str_debug(symbol);
    let n = decimal(candidates.len());
    lemma_parts_of_message("symbol "@, s, " not found in "@, file);
    let m = not_renameable_error(symbol, file, candidates).message;
    let none = ", but none is a renameable symbol (strings/comments?)"@;
    lemma_parts_of_message(Seq::empty(), n, " occurrence(s) of "@, s + " in "@ + file + none);
    assert(m =~= Seq::<char>::empty() + n + " occurrence(s) of "@ + (s + " in "@ + file + none));
    lemma_parts_of_message(n + " occurrence(s) of "@, s, " in "@, file + none);
    assert(m =~= n + " occurrence(s) of "@ + s + " in "@ + (file + none));
    lemma_parts_of_message(n + " occurrence(s) of "@ + s + " in "@, file, none, Seq::empty());
    assert(m =~= n + " occurrence(s) of "@ + s + " in "@ + file + none + Seq::<char>::empty());
    let a = ambiguous_error(symbol, file, candidates).message;
    let end = " distinct occurrences verified as symbols; disambiguate with line:char"@;
    lemma_parts_of_message(Seq::empty(), s, " is ambiguous in "@, file + ": "@ + n + end);
    assert(a =~= Seq::<char>::empty() + s + " is ambiguous in "@ + (file + ": "@ + n + end));
    lemma_parts_of_message(s + " is ambiguous in "@, file, ": "@, n + end);
    assert(a =~= s + " is ambiguous in "@ + file + ": "@ + (n + end));
    lemma_parts_of_message(s + " is ambiguous in "@ + file + ": "@, n, end, Seq::empty());
    assert(a =~= s + " is ambiguous in "@ + file + ": "@ + n + end + Seq::<char>::empty());
}

/// A location without an end covers nothing.
pub proof fn lemma_open_ranges_cover_nothing(loc: JsonView, uri: Seq<char>, c: CandidateView)
    requires
        at(at(loc, "range"@), "start"@) == JsonView::Null || at(at(loc, "range"@), "end"@)
            == JsonView::Null,
    ensures
        !covers(loc, uri, c),
{
}

/// A text with a colon is a position exactly where a number stands on either side of its
/// first colon, the line before it and the column behind; otherwise all of it is a name.
pub proof fn lemma_targets_with_a_colon(a: Seq<char>, b: Seq<char>)
    requires
        !a.contains(':'),
    ensures
        match target_of(a + seq![':'] + b) {
            TargetView::Position { line, character } => number_of(a) == Ok::<nat, IntError>(line)
                && number_of(b) == Ok::<nat, IntError>(character),
            TargetView::Symbol(name) => name == a + seq![':'] + b && (number_of(a) is Err
                || number_of(b) is Err),
        },
{
    let s = a + seq![':'] + b;
    let k = a.len() as int;
    assert forall|j: int| 0 <= j < k implies s[j] != ':' by {
        assert(s[j] == a[j]);
        assert(a.contains(a[j]));
    }
    lemma_first_index(s, ':', k);
    assert(s.take(k) =~= a);
    assert(s.skip(k + 1) =~= b);
}

} // verus!
