//! Candidates and positions speak of the same places.
//!
//! The scan for a symbol counts the lines that `str::lines` gives, which end in
//! `\n` or `\r\n`. The protocol ends a line at a lone `\r` too. Without one the two
//! agree, and the position of a candidate leads to the symbol itself.

use vstd::prelude::*;
use vstd::utf8::encode_utf8;

use crate::apply::{
    is_line_start, lemma_columns_are_utf16, lemma_encode_concat, lemma_starts_below, line_end,
    offset_of, starts_below, starts_of, Position,
};
use crate::resolve::{candidate_at, occurs_at};
use crate::text::{first_index, lemma_first_index_bounds, lines_of};

verus! {

/// Whether every `\r` belongs to a `\r\n`.
pub open spec fn no_lone_cr(text: Seq<char>) -> bool {
    forall|i: int|
        0 <= i < text.len() && #[trigger] text[i] == '\r' ==> i + 1 < text.len() && text[i + 1]
            == '\n'
}

/// Where a line begins in a text.
pub open spec fn line_begin(text: Seq<char>, k: nat) -> int
    decreases k,
{
    if k == 0 {
        0
    } else {
        let j = first_index(text, '\n');
        j + 1 + line_begin(text.skip(j + 1), (k - 1) as nat)
    }
}

/// An ASCII byte of an encoded text is a character of the text.
proof fn lemma_ascii_byte(s: Seq<char>, i: int) -> (k: int)
    requires
        0 <= i < encode_utf8(s).len(),
        encode_utf8(s)[i] < 0x80,
    ensures
        0 <= k < s.len(),
        s[k] as u32 == encode_utf8(s)[i],
        encode_utf8(s.take(k)).len() == i,
    decreases s.len(),
{
    let first = vstd::utf8::encode_scalar(s[0] as u32);
    let rest = s.drop_first();
    vstd::utf8::encode_utf8_first_scalar(s);
    let code = encode_utf8(s);
    let n = first.len() as int;
    if i < n {
        assert(code[i] == first[i]);
        assert(n > 1 ==> vstd::utf8::is_continuation_byte(code[1]));
        assert(n > 2 ==> vstd::utf8::is_continuation_byte(code[2]));
        assert(n > 3 ==> vstd::utf8::is_continuation_byte(code[3]));
        assert(n == 1);
        let c: u32 = s[0] as u32;
        assert(c as u8 == vstd::utf8::leading_byte_width_1(c)) by (bit_vector)
            requires
                vstd::utf8::has_width_1_encoding(c),
        ;
        assert(s.take(0) =~= Seq::empty());
        0
    } else {
        assert(code[i] == encode_utf8(rest)[i - n]);
        let m = lemma_ascii_byte(rest, i - n);
        assert(s.take(m + 1).drop_first() =~= rest.take(m));
        assert(s.take(m + 1)[0] == s[0]);
        assert(s[m + 1] == rest[m]);
        m + 1
    }
}

/// The lines that begin behind a line are those of the rest of the text.
proof fn lemma_starts_shift(a: Seq<u8>, r: Seq<u8>, m: nat)
    requires
        a.len() > 0,
        a.last() == 10,
        a.len() + r.len() <= usize::MAX,
        m <= r.len() + 1,
        forall|i: int| 0 < i < a.len() ==> !is_line_start(a + r, i),
    ensures
        starts_below(a + r, a.len() + m).len() == 1 + starts_below(r, m).len(),
        starts_below(a + r, a.len() + m)[0] == 0,
        forall|k: int|
            0 <= k < starts_below(r, m).len() ==> #[trigger] starts_below(a + r, a.len() + m)[k + 1]
                == a.len() + starts_below(r, m)[k],
    decreases m,
{
    let t = a + r;
    if m == 0 {
        lemma_single_start(t, a.len());
    } else {
        let q = (m - 1) as nat;
        lemma_starts_shift(a, r, q);
        lemma_starts_below(r, q);
        lemma_starts_below(r, m);
        let i = a.len() + q;
        assert(is_line_start(t, i as int) == is_line_start(r, q as int)) by {
            if q == 0 {
                assert(t[i - 1] == a.last());
            } else {
                assert(t[i - 1] == r[q - 1]);
                if q < r.len() {
                    assert(t[i as int] == r[q as int]);
                }
            }
        }
        let short = starts_below(t, (a.len() + q) as nat);
        let all = starts_below(t, (a.len() + m) as nat);
        assert forall|k: int| 0 <= k < starts_below(r, m).len() implies #[trigger] all[k + 1]
            == a.len() + starts_below(r, m)[k] by {
            if k < starts_below(r, q).len() {
                assert(all[k + 1] == short[k + 1]);
                assert(starts_below(r, m)[k] == starts_below(r, q)[k]);
            }
        }
        assert(all[0] == short[0]);
    }
}

/// A text without a line start behind its beginning has one line start.
proof fn lemma_single_start(t: Seq<u8>, n: nat)
    requires
        0 < n <= t.len() + 1,
        forall|i: int| 0 < i < n ==> !is_line_start(t, i),
    ensures
        starts_below(t, n) == seq![0usize],
    decreases n,
{
    if n > 1 {
        lemma_single_start(t, (n - 1) as nat);
    } else {
        reveal_with_fuel(starts_below, 2);
        assert(is_line_start(t, 0));
        assert(starts_below(t, 1) =~= seq![0usize]);
    }
}

/// Within the first line of a text no other line begins.
proof fn lemma_first_line_whole(text: Seq<char>, j: int, i: int)
    requires
        no_lone_cr(text),
        0 <= j <= text.len(),
        forall|q: int| 0 <= q < j ==> text[q] != '\n',
        j < text.len() ==> text[j] == '\n',
        0 < i <= encode_utf8(text.take(j)).len(),
    ensures
        !is_line_start(encode_utf8(text), i),
{
    let head = text.take(j);
    let tail = text.skip(j);
    let a = encode_utf8(head);
    let t = encode_utf8(text);
    assert(text =~= head + tail);
    lemma_encode_concat(head, tail);
    assert(t[i - 1] == a[i - 1]);
    if a[i - 1] == 10 || a[i - 1] == 13 {
        let k = lemma_ascii_byte(head, i - 1);
        assert(head[k] == text[k]);
        assert(text[k] as u32 == a[i - 1] as u32);
        let c: char = text[k];
        let u: u32 = c as u32;
        vstd::utf8::char_u32_cast(c, u);
        if a[i - 1] == 10 {
            assert(text[k] == '\n');
        } else {
            assert(text[k] == '\r');
            assert(text[k + 1] == '\n');
            assert(k + 1 == j);
            assert(head =~= head.take(k) + seq!['\r']);
            lemma_encode_concat(head.take(k), seq!['\r']);
            reveal_with_fuel(encode_utf8, 2);
            assert(encode_utf8(seq!['\r']).len() == 1);
            assert(a.len() == i);
            assert(tail[0] == '\n');
            assert(encode_utf8(tail)[0] == 10) by {
                vstd::utf8::encode_utf8_first_scalar(tail);
                assert(tail[0] as u32 == 10);
                let c: u32 = 10;
                assert(vstd::utf8::leading_byte_width_1(c) == 10) by (bit_vector)
                    requires
                        c == 10,
                ;
            }
            assert(t[i] == encode_utf8(tail)[0]);
        }
    }
}

/// Where a line begins and ends, in the scan's count and in the protocol's.
proof fn lemma_line_place(text: Seq<char>, k: nat)
    requires
        no_lone_cr(text),
        encode_utf8(text).len() <= usize::MAX,
        k < lines_of(text).len(),
    ensures
        ({
            let b = line_begin(text, k);
            let line = lines_of(text)[k as int];
            let t = encode_utf8(text);
            &&& 0 <= b
            &&& b + line.len() <= text.len()
            &&& text.subrange(b, b + line.len()) == line
            &&& k < starts_of(t).len()
            &&& starts_of(t)[k as int] == encode_utf8(text.take(b)).len()
            &&& encode_utf8(text.take(b + line.len())).len() <= line_end(
                t,
                starts_of(t),
                k as int,
            )
        }),
    decreases text.len(),
{
    let t = encode_utf8(text);
    let j = first_index(text, '\n');
    lemma_first_index_bounds(text, '\n');
    lemma_starts_below(t, t.len() + 1);
    let line = lines_of(text)[k as int];
    if k == 0 {
        let whole = text.take(j);
        assert(line.len() <= whole.len());
        assert(text.subrange(0, line.len() as int) =~= line);
        assert(text.take(0) =~= Seq::empty());
        let starts = starts_of(t);
        let shown = text.take(line.len() as int);
        let cut = text.subrange(line.len() as int, j);
        assert(whole =~= shown + cut);
        lemma_encode_concat(shown, cut);
        assert(text =~= whole + text.skip(j));
        lemma_encode_concat(whole, text.skip(j));
        if starts.len() > 1 {
            let next = starts[1] as int;
            assert(is_line_start(t, next));
            assert(starts[0] < starts[1]);
            if next <= encode_utf8(whole).len() {
                lemma_first_line_whole(text, j, next);
            }
        }
    } else {
        let head = text.take(j + 1);
        let rest = text.skip(j + 1);
        let a = encode_utf8(head);
        let r = encode_utf8(rest);
        assert(text =~= head + rest);
        lemma_encode_concat(head, rest);
        assert(no_lone_cr(rest)) by {
            assert forall|i: int| 0 <= i < rest.len() && #[trigger] rest[i] == '\r' implies i + 1
                < rest.len() && rest[i + 1] == '\n' by {
                assert(text[i + (j + 1)] == '\r');
            }
        }
        lemma_line_place(rest, (k - 1) as nat);
        assert(head =~= text.take(j) + seq!['\n']);
        lemma_encode_concat(text.take(j), seq!['\n']);
        reveal_with_fuel(encode_utf8, 2);
        let nl = encode_utf8(seq!['\n']);
        assert(nl.len() == 1 && nl[0] == 10) by {
            vstd::utf8::encode_utf8_first_scalar(seq!['\n']);
            let c: u32 = 10;
            assert(vstd::utf8::leading_byte_width_1(c) == 10) by (bit_vector)
                requires
                    c == 10,
            ;
        }
        assert(a.last() == 10);
        assert forall|i: int| 0 < i < a.len() implies !is_line_start(a + r, i) by {
            lemma_first_line_whole(text, j, i);
        }
        lemma_starts_shift(a, r, r.len() + 1);
        let starts = starts_of(t);
        let inner = starts_of(r);
        let b = line_begin(rest, (k - 1) as nat);
        assert(starts[k as int] == a.len() + inner[k - 1]);
        assert(text.take(j + 1 + b) =~= head + rest.take(b));
        lemma_encode_concat(head, rest.take(b));
        assert(text.take(j + 1 + b + line.len()) =~= head + rest.take(b + line.len()));
        lemma_encode_concat(head, rest.take(b + line.len()));
        assert(text.subrange(j + 1 + b, j + 1 + b + line.len()) =~= rest.subrange(
            b,
            b + line.len(),
        ));
        if k < inner.len() {
            assert(starts[k as int + 1] == a.len() + inner[k as int]);
        }
    }
}

/// The position of a candidate, read as the protocol reads it, is the place where
/// the symbol stands in the text.
pub proof fn lemma_candidates_point_at_symbols(
    text: Seq<char>,
    symbol: Seq<char>,
    k: nat,
    i: int,
    p: Position,
)
    requires
        no_lone_cr(text),
        encode_utf8(text).len() <= usize::MAX,
        k < lines_of(text).len(),
        occurs_at(lines_of(text)[k as int], i, symbol),
        p.line == candidate_at(lines_of(text)[k as int], k, i).line,
        p.character == candidate_at(lines_of(text)[k as int], k, i).character,
    ensures
        ({
            let at = line_begin(text, k) + i;
            &&& 0 <= at
            &&& at + symbol.len() <= text.len()
            &&& text.subrange(at, at + symbol.len()) == symbol
            &&& offset_of(encode_utf8(text), p) == encode_utf8(text.take(at)).len()
        }),
{
    lemma_line_place(text, k);
    let b = line_begin(text, k);
    let line = lines_of(text)[k as int];
    let before = text.take(b);
    let a = line.take(i);
    let rest = text.skip(b + i);
    assert(text =~= before + a + rest) by {
        assert(a =~= text.subrange(b, b + i));
    }
    assert(text.take(b + i) =~= before + a);
    assert(text.subrange(b + i, b + i + symbol.len()) =~= line.subrange(i, i + symbol.len()));
    let behind = text.subrange(b + i, b + line.len());
    assert(text.take(b + line.len()) =~= text.take(b + i) + behind);
    lemma_encode_concat(text.take(b + i), behind);
    lemma_columns_are_utf16(before, a, rest, p);
}

} // verus!
