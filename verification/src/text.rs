//! Characters, lines and numbers: the plain-text vocabulary of the library.
//!
//! Strings are read through their characters. Where the standard library
//! consults the Unicode tables, the answer is a named fact about the character;
//! for ASCII it is spelt out.

use vstd::prelude::*;
use vstd::utf8::{decode_utf8, valid_utf8};

verus! {

/// `String::push`: appends one character.
pub assume_specification[ String::push ](s: &mut String, c: char)
    ensures
        final(s)@ == old(s)@.push(c),
;

/// Whether Unicode counts `c` as alphabetic or numeric: the answer of `char::is_alphanumeric`.
pub uninterp spec fn char_alphanumeric(c: char) -> bool;

/// `char::is_alphanumeric`: a fixed property of the character.
pub assume_specification[ char::is_alphanumeric ](c: char) -> (r: bool)
    ensures
        r == char_alphanumeric(c),
;

/// Whether Unicode gives `c` the White_Space property: the answer of `char::is_whitespace`.
pub uninterp spec fn char_white_space(c: char) -> bool;

/// `char::is_whitespace`: a fixed property of the character.
pub assume_specification[ char::is_whitespace ](c: char) -> (r: bool)
    ensures
        r == char_white_space(c),
;

/// The Debug rendering of a string, quotes and escapes included.
pub uninterp spec fn str_debug(s: Seq<char>) -> Seq<char>;

/// `format!("{:?}")` on a string: what it gives depends on the string alone.
#[verifier::external_body]
pub(crate) fn debug_text(s: &str) -> (r: String)
    ensures
        r@ == str_debug(s@),
{
    format!("{:?}", s)
}

/// `String::from_utf8`: the text that the bytes encode, where they are valid UTF-8.
#[verifier::external_body]
pub(crate) fn text_from_utf8(bytes: Vec<u8>) -> (r: Result<String, std::string::FromUtf8Error>)
    ensures
        match r {
            Ok(s) => valid_utf8(bytes@) && s@ == decode_utf8(bytes@),
            Err(_) => !valid_utf8(bytes@),
        },
{
    String::from_utf8(bytes)
}

/// `std::string::FromUtf8Error`: that bytes are no text.
#[verifier::external_type_specification]
#[verifier::external_body]
pub struct ExFromUtf8Error(std::string::FromUtf8Error);

// ---------------------------------------------------------------------------
// Character classes
// ---------------------------------------------------------------------------

/// A character that may stand in an identifier: a letter, a digit or `_`.
pub open spec fn word_char(c: char) -> bool {
    if c <= '\u{7f}' {
        ||| '0' <= c <= '9'
        ||| 'A' <= c <= 'Z'
        ||| 'a' <= c <= 'z'
        ||| c == '_'
    } else {
        char_alphanumeric(c)
    }
}

/// White space: tab to carriage return and blank in ASCII, the Unicode property beyond it.
pub open spec fn white_char(c: char) -> bool {
    if c <= '\u{7f}' {
        c == ' ' || '\t' <= c <= '\r'
    } else {
        char_white_space(c)
    }
}

/// The UTF-16 code units that one character takes.
pub open spec fn utf16_width(c: char) -> nat {
    if c as u32 >= 0x10000 {
        2
    } else {
        1
    }
}

/// The UTF-16 code units that a text takes.
pub open spec fn utf16_len(s: Seq<char>) -> nat
    decreases s.len(),
{
    if s.len() == 0 {
        0
    } else {
        utf16_len(s.drop_last()) + utf16_width(s.last())
    }
}

/// Whether `c` may stand in an identifier.
pub fn is_word(c: char) -> (r: bool)
    ensures
        r == word_char(c),
{
    if c <= '\u{7f}' {
        ('0' <= c && c <= '9') || ('A' <= c && c <= 'Z') || ('a' <= c && c <= 'z') || c == '_'
    } else {
        c.is_alphanumeric()
    }
}

pub(crate) fn is_white(c: char) -> (r: bool)
    ensures
        r == white_char(c),
{
    if c <= '\u{7f}' {
        c == ' ' || ('\t' <= c && c <= '\r')
    } else {
        c.is_whitespace()
    }
}

// ---------------------------------------------------------------------------
// Strings as character vectors
// ---------------------------------------------------------------------------

/// The characters of a string.
pub(crate) fn chars_of(s: &str) -> (r: Vec<char>)
    ensures
        r@ == s@,
{
    let mut out: Vec<char> = Vec::new();
    for c in it: s.chars()
        invariant
            it.seq() == s@,
            out@ == s@.take(it.index() as int),
    {
        out.push(c);
    }
    assert(s@.take(s@.len() as int) == s@);
    out
}

/// The string made of `chars[from..to]`.
pub(crate) fn text_of(chars: &Vec<char>, from: usize, to: usize) -> (r: String)
    requires
        from <= to <= chars@.len(),
    ensures
        r@ == chars@.subrange(from as int, to as int),
{
    let mut out = String::new();
    let mut i: usize = from;
    while i < to
        invariant
            from <= i <= to <= chars@.len(),
            out@ == chars@.subrange(from as int, i as int),
        decreases to - i,
    {
        out.push(chars[i]);
        i += 1;
    }
    out
}

/// Whether two strings hold the same characters.
pub(crate) fn same_text(a: &str, b: &str) -> (r: bool)
    ensures
        r == (a@ == b@),
{
    let x = chars_of(a);
    let y = chars_of(b);
    if x.len() != y.len() {
        return false;
    }
    let mut i: usize = 0;
    while i < x.len()
        invariant
            x@ == a@,
            y@ == b@,
            x@.len() == y@.len(),
            i <= x@.len(),
            forall|j: int| 0 <= j < i ==> x@[j] == y@[j],
        decreases x@.len() - i,
    {
        if x[i] != y[i] {
            return false;
        }
        i += 1;
    }
    assert(a@ =~= b@);
    true
}

/// A copy of a string slice as an owned string.
pub(crate) fn owned(s: &str) -> (r: String)
    ensures
        r@ == s@,
{
    s.to_owned()
}

/// A copy of `chars[from..to]`.
pub(crate) fn slice_of(chars: &Vec<char>, from: usize, to: usize) -> (r: Vec<char>)
    requires
        from <= to <= chars@.len(),
    ensures
        r@ == chars@.subrange(from as int, to as int),
{
    let mut out: Vec<char> = Vec::new();
    let mut i: usize = from;
    while i < to
        invariant
            from <= i <= to <= chars@.len(),
            out@ == chars@.subrange(from as int, i as int),
        decreases to - i,
    {
        out.push(chars[i]);
        i += 1;
    }
    out
}

// ---------------------------------------------------------------------------
// Searching and splitting
// ---------------------------------------------------------------------------

/// Where `c` first stands in `s`; the length of `s` where it does not occur.
pub open spec fn first_index(s: Seq<char>, c: char) -> int
    decreases s.len(),
{
    if s.len() == 0 || s[0] == c {
        0
    } else {
        1 + first_index(s.drop_first(), c)
    }
}

/// The first index is the one place with nothing equal before it.
pub proof fn lemma_first_index(s: Seq<char>, c: char, k: int)
    requires
        0 <= k <= s.len(),
        forall|j: int| 0 <= j < k ==> s[j] != c,
        k == s.len() || s[k] == c,
    ensures
        first_index(s, c) == k,
    decreases s.len(),
{
    if s.len() > 0 && s[0] != c {
        assert(k > 0);
        lemma_first_index(s.drop_first(), c, k - 1);
    }
}

/// What the first index says of the characters around it.
pub proof fn lemma_first_index_bounds(s: Seq<char>, c: char)
    ensures
        0 <= first_index(s, c) <= s.len(),
        forall|j: int| 0 <= j < first_index(s, c) ==> s[j] != c,
        first_index(s, c) < s.len() ==> s[first_index(s, c)] == c,
    decreases s.len(),
{
    if s.len() > 0 && s[0] != c {
        let t = s.drop_first();
        lemma_first_index_bounds(t, c);
        assert forall|j: int| 0 <= j < first_index(s, c) implies s[j] != c by {
            if j > 0 {
                assert(t[j - 1] == s[j]);
            }
        }
    }
}

/// The index at or after `from` where `c` first stands in `chars`, or the length.
pub(crate) fn find_char(chars: &Vec<char>, from: usize, c: char) -> (r: usize)
    requires
        from <= chars@.len(),
    ensures
        from <= r <= chars@.len(),
        r == from + first_index(chars@.skip(from as int), c),
{
    let mut i: usize = from;
    while i < chars.len() && chars[i] != c
        invariant
            from <= i <= chars@.len(),
            forall|j: int| from <= j < i ==> chars@[j] != c,
        decreases chars@.len() - i,
    {
        i += 1;
    }
    proof {
        lemma_first_index(chars@.skip(from as int), c, i - from);
    }
    i
}

/// A line without the carriage return that belongs to its terminator.
pub open spec fn without_cr(line: Seq<char>) -> Seq<char> {
    if line.len() > 0 && line.last() == '\r' {
        line.drop_last()
    } else {
        line
    }
}

/// The lines of a text as `str::lines` gives them: `\n` and `\r\n` end a line,
/// and the end of the text after a terminator is no further line.
pub open spec fn lines_of(text: Seq<char>) -> Seq<Seq<char>>
    decreases text.len(),
    via lines_of_decreases
{
    if text.len() == 0 {
        Seq::empty()
    } else {
        let k = first_index(text, '\n');
        if k >= text.len() {
            seq![text]
        } else {
            seq![without_cr(text.take(k))] + lines_of(text.skip(k + 1))
        }
    }
}

#[via_fn]
proof fn lines_of_decreases(text: Seq<char>) {
    lemma_first_index_bounds(text, '\n');
}

/// The views of a vector of character vectors.
pub open spec fn rows(v: Seq<Vec<char>>) -> Seq<Seq<char>> {
    v.map_values(|x: Vec<char>| x@)
}

/// Splits a text into its lines.
pub(crate) fn lines(text: &Vec<char>) -> (r: Vec<Vec<char>>)
    ensures
        rows(r@) == lines_of(text@),
{
    let mut out: Vec<Vec<char>> = Vec::new();
    let mut start: usize = 0;
    assert(text@.skip(0) =~= text@);
    assert(rows(out@) + lines_of(text@) =~= lines_of(text@));
    while start < text.len()
        invariant
            start <= text@.len(),
            rows(out@) + lines_of(text@.skip(start as int)) == lines_of(text@),
        decreases text@.len() - start,
    {
        let ghost rest = text@.skip(start as int);
        let ghost before = rows(out@);
        let k: usize = find_char(text, start, '\n');
        if k >= text.len() {
            let line = slice_of(text, start, k);
            assert(line@ =~= rest);
            out.push(line);
            start = text.len();
            proof {
                assert(rows(out@) =~= before + seq![rest]);
                assert(text@.skip(start as int) =~= Seq::empty());
                assert(lines_of(rest) == seq![rest]);
                assert(rows(out@) + lines_of(text@.skip(start as int)) =~= before + lines_of(rest));
            }
        } else {
            let mut end: usize = k;
            if end > start && text[end - 1] == '\r' {
                end -= 1;
            }
            let line = slice_of(text, start, end);
            assert(line@ =~= without_cr(rest.take(k - start)));
            out.push(line);
            proof {
                assert(rows(out@) =~= before + seq![line@]);
                assert(rest.skip(k - start + 1) =~= text@.skip(k + 1));
                assert(rows(out@) + lines_of(text@.skip(k + 1)) =~= before + lines_of(rest));
            }
            start = k + 1;
        }
    }
    assert(text@.skip(start as int) =~= Seq::empty());
    assert(rows(out@) + lines_of(text@.skip(start as int)) =~= rows(out@));
    out
}

/// A text without the white space at its end.
pub open spec fn trim_end(s: Seq<char>) -> Seq<char>
    decreases s.len(),
{
    if s.len() > 0 && white_char(s.last()) {
        trim_end(s.drop_last())
    } else {
        s
    }
}

/// A text without the white space at its start.
pub open spec fn trim_start(s: Seq<char>) -> Seq<char>
    decreases s.len(),
{
    if s.len() > 0 && white_char(s[0]) {
        trim_start(s.drop_first())
    } else {
        s
    }
}

/// A text without the white space at either end.
pub open spec fn trim(s: Seq<char>) -> Seq<char> {
    trim_start(trim_end(s))
}

/// How many characters are left when the white space at the end is gone.
pub(crate) fn trimmed_len(chars: &Vec<char>) -> (r: usize)
    ensures
        r <= chars@.len(),
        chars@.take(r as int) == trim_end(chars@),
{
    let mut n: usize = chars.len();
    assert(chars@.take(n as int) =~= chars@);
    while n > 0 && is_white(chars[n - 1])
        invariant
            n <= chars@.len(),
            trim_end(chars@.take(n as int)) == trim_end(chars@),
        decreases n,
    {
        assert(chars@.take(n as int).drop_last() =~= chars@.take(n - 1));
        n -= 1;
    }
    n
}

/// The string of `chars` without the white space at the end.
pub(crate) fn trim_end_text(chars: &Vec<char>) -> (r: String)
    ensures
        r@ == trim_end(chars@),
{
    let n: usize = trimmed_len(chars);
    assert(chars@.subrange(0, n as int) =~= chars@.take(n as int));
    text_of(chars, 0, n)
}

/// The characters of `chars` without the white space at either end.
pub(crate) fn trimmed(chars: &Vec<char>) -> (r: Vec<char>)
    ensures
        r@ == trim(chars@),
{
    let n: usize = trimmed_len(chars);
    let ghost kept = trim_end(chars@);
    let mut i: usize = 0;
    assert(kept.skip(0) =~= kept);
    while i < n && is_white(chars[i])
        invariant
            i <= n <= chars@.len(),
            kept == chars@.take(n as int),
            trim_start(kept.skip(i as int)) == trim_start(kept),
        decreases n - i,
    {
        assert(kept.skip(i as int).drop_first() =~= kept.skip(i + 1));
        i += 1;
    }
    assert(chars@.subrange(i as int, n as int) =~= kept.skip(i as int));
    slice_of(chars, i, n)
}

/// The words of a text: its maximal runs of characters that are no white space.
pub open spec fn words_of(s: Seq<char>) -> Seq<Seq<char>>
    decreases s.len(),
{
    if s.len() == 0 {
        Seq::empty()
    } else if white_char(s[0]) {
        words_of(s.drop_first())
    } else {
        let k = word_len(s);
        if 0 < k <= s.len() {
            seq![s.take(k)] + words_of(s.skip(k))
        } else {
            Seq::empty()
        }
    }
}

/// How many characters stand before the first white space.
pub open spec fn word_len(s: Seq<char>) -> int
    decreases s.len(),
{
    if s.len() == 0 || white_char(s[0]) {
        0
    } else {
        1 + word_len(s.drop_first())
    }
}

/// The words of a text, in order.
pub(crate) fn words(chars: &Vec<char>) -> (r: Vec<Vec<char>>)
    ensures
        rows(r@) == words_of(chars@),
{
    let mut out: Vec<Vec<char>> = Vec::new();
    let mut i: usize = 0;
    assert(chars@.skip(0) =~= chars@);
    assert(rows(out@) + words_of(chars@) =~= words_of(chars@));
    while i < chars.len()
        invariant
            i <= chars@.len(),
            rows(out@) + words_of(chars@.skip(i as int)) == words_of(chars@),
        decreases chars@.len() - i,
    {
        let ghost rest = chars@.skip(i as int);
        if is_white(chars[i]) {
            assert(rest.drop_first() =~= chars@.skip(i + 1));
            i += 1;
        } else {
            let mut j: usize = i;
            while j < chars.len() && !is_white(chars[j])
                invariant
                    i <= j <= chars@.len(),
                    i < chars@.len(),
                    !white_char(chars@[i as int]),
                    (j - i) + word_len(chars@.skip(j as int)) == word_len(chars@.skip(i as int)),
                decreases chars@.len() - j,
            {
                assert(chars@.skip(j as int).drop_first() =~= chars@.skip(j + 1));
                j += 1;
            }
            let word = slice_of(chars, i, j);
            let ghost before = rows(out@);
            out.push(word);
            proof {
                assert(word@ =~= rest.take(j - i));
                assert(rest.skip(j - i) =~= chars@.skip(j as int));
                assert(rows(out@) =~= before + seq![word@]);
                assert(word_len(rest) == j - i);
                assert(rows(out@) + words_of(chars@.skip(j as int)) =~= before + words_of(rest));
            }
            i = j;
        }
    }
    assert(chars@.skip(i as int) =~= Seq::empty());
    assert(rows(out@) + words_of(chars@.skip(i as int)) =~= rows(out@));
    out
}

// ---------------------------------------------------------------------------
// Numbers
// ---------------------------------------------------------------------------

/// The decimal digit of a value below ten.
pub open spec fn digit_char(d: nat) -> char {
    ('0' as u32 + d) as char
}

/// A number in decimal, without leading zeros.
pub open spec fn decimal(n: nat) -> Seq<char>
    decreases n,
{
    if n < 10 {
        seq![digit_char(n)]
    } else {
        decimal(n / 10).push(digit_char(n % 10))
    }
}

/// Why a text is no number.
#[derive(Clone, Copy, PartialEq, Eq, Debug, Structural)]
pub enum IntError {
    Empty,
    InvalidDigit,
    Overflow,
}

/// Reads decimal digits on top of the value read so far.
pub open spec fn digits_onto(s: Seq<char>, value: nat) -> Result<nat, IntError>
    decreases s.len(),
{
    if s.len() == 0 {
        Ok(value)
    } else if !('0' <= s[0] <= '9') {
        Err(IntError::InvalidDigit)
    } else {
        let next = value * 10 + (s[0] as u32 - '0' as u32) as nat;
        if next > usize::MAX {
            Err(IntError::Overflow)
        } else {
            digits_onto(s.drop_first(), next)
        }
    }
}

/// The number that a text spells: digits, with an optional `+` before them.
pub open spec fn number_of(s: Seq<char>) -> Result<nat, IntError> {
    if s.len() == 0 {
        Err(IntError::Empty)
    } else if s[0] == '+' {
        if s.len() == 1 {
            Err(IntError::InvalidDigit)
        } else {
            digits_onto(s.drop_first(), 0)
        }
    } else {
        digits_onto(s, 0)
    }
}

/// Reads a number.
pub(crate) fn parse_number(chars: &Vec<char>) -> (r: Result<usize, IntError>)
    ensures
        match r {
            Ok(n) => number_of(chars@) == Ok::<nat, IntError>(n as nat),
            Err(e) => number_of(chars@) == Err::<nat, IntError>(e),
        },
{
    if chars.len() == 0 {
        return Err(IntError::Empty);
    }
    let mut i: usize = 0;
    if chars[0] == '+' {
        if chars.len() == 1 {
            return Err(IntError::InvalidDigit);
        }
        i = 1;
    }
    let mut value: usize = 0;
    proof {
        if i == 0 {
            assert(chars@.skip(0) =~= chars@);
        } else {
            assert(chars@.skip(1) =~= chars@.drop_first());
        }
    }
    while i < chars.len()
        invariant
            i <= chars@.len(),
            digits_onto(chars@.skip(i as int), value as nat) == number_of(chars@),
        decreases chars@.len() - i,
    {
        let c: char = chars[i];
        if !('0' <= c && c <= '9') {
            return Err(IntError::InvalidDigit);
        }
        let d: usize = (c as u32 - '0' as u32) as usize;
        if value > (usize::MAX - d) / 10 {
            return Err(IntError::Overflow);
        }
        assert(chars@.skip(i as int).drop_first() =~= chars@.skip(i + 1));
        value = value * 10 + d;
        i += 1;
    }
    assert(chars@.skip(i as int) =~= Seq::empty());
    Ok(value)
}

/// Writes a number in decimal.
pub(crate) fn decimal_text(n: u64) -> (r: String)
    ensures
        r@ == decimal(n as nat),
    decreases n,
{
    let d: u32 = (n % 10) as u32;
    let c: char = digit(d);
    let mut out = if n < 10 {
        String::new()
    } else {
        decimal_text(n / 10)
    };
    out.push(c);
    assert(n < 10 ==> out@ =~= seq![c]);
    out
}

/// A signed number in decimal.
pub open spec fn signed_decimal(i: int) -> Seq<char> {
    if i < 0 {
        "-"@ + decimal((-i) as nat)
    } else {
        decimal(i as nat)
    }
}

/// Writes a signed number in decimal.
pub(crate) fn signed_text(i: i64) -> (r: String)
    ensures
        r@ == signed_decimal(i as int),
{
    if i < 0 {
        let mut out = owned("-");
        let size = decimal_text((-(i as i128)) as u64);
        out.append(size.as_str());
        out
    } else {
        decimal_text(i as u64)
    }
}

fn digit(d: u32) -> (c: char)
    requires
        d < 10,
    ensures
        c == digit_char(d as nat),
{
    match d {
        0 => '0',
        1 => '1',
        2 => '2',
        3 => '3',
        4 => '4',
        5 => '5',
        6 => '6',
        7 => '7',
        8 => '8',
        _ => '9',
    }
}

// ---------------------------------------------------------------------------
// What holds of lines, words and numbers
// ---------------------------------------------------------------------------

/// A text comes apart at its newlines: what stands before the first one is the
/// first line, with the carriage return of its terminator gone, and the other lines
/// are those of what stands behind. What has no newline is one line.
pub proof fn lemma_lines_split(line: Seq<char>, rest: Seq<char>)
    requires
        !line.contains('\n'),
    ensures
        lines_of(line + seq!['\r', '\n'] + rest) == seq![line] + lines_of(rest),
        line.len() == 0 || line.last() != '\r' ==> lines_of(line + seq!['\n'] + rest) == seq![line]
            + lines_of(rest),
        line.len() > 0 ==> lines_of(line) == seq![line],
        lines_of(Seq::empty()) == Seq::<Seq<char>>::empty(),
{
    let n = line.len() as int;
    assert forall|j: int| 0 <= j < n implies line[j] != '\n' by {
        assert(line.contains(line[j]));
    }
    lemma_first_index(line, '\n', n);
    let a = line + seq!['\n'] + rest;
    lemma_first_index(a, '\n', n);
    assert(a.take(n) =~= line);
    assert(a.skip(n + 1) =~= rest);
    let b = line + seq!['\r', '\n'] + rest;
    lemma_first_index(b, '\n', n + 1);
    assert(b.take(n + 1) =~= line.push('\r'));
    assert(line.push('\r').drop_last() =~= line);
    assert(b.skip(n + 2) =~= rest);
}

/// Trimming takes white space off the end, all of it, and nothing else.
pub proof fn lemma_trim_end(s: Seq<char>)
    ensures
        trim_end(s).len() <= s.len(),
        trim_end(s) == s.take(trim_end(s).len() as int),
        forall|i: int| trim_end(s).len() <= i < s.len() ==> white_char(#[trigger] s[i]),
        trim_end(s).len() > 0 ==> !white_char(trim_end(s).last()),
    decreases s.len(),
{
    if s.len() > 0 && white_char(s.last()) {
        let shorter = s.drop_last();
        lemma_trim_end(shorter);
        let n = trim_end(shorter).len() as int;
        assert(shorter.take(n) =~= s.take(n));
        assert forall|i: int| n <= i < s.len() implies white_char(#[trigger] s[i]) by {
            if i < shorter.len() {
                assert(shorter[i] == s[i]);
            }
        }
    } else {
        assert(s.take(s.len() as int) =~= s);
    }
}

/// How long a word is: up to the white space behind it.
proof fn lemma_word_len(word: Seq<char>, rest: Seq<char>)
    requires
        forall|i: int| 0 <= i < word.len() ==> !white_char(#[trigger] word[i]),
        rest.len() > 0 ==> white_char(rest[0]),
    ensures
        word_len(word + rest) == word.len(),
    decreases word.len(),
{
    let s = word + rest;
    if word.len() > 0 {
        assert(s[0] == word[0]);
        assert(s.drop_first() =~= word.drop_first() + rest);
        lemma_word_len(word.drop_first(), rest);
    } else {
        assert(s =~= rest);
    }
}

/// White space stands between words and is no part of one: behind white space the
/// first word goes up to the next, and the other words are those of what follows.
pub proof fn lemma_words_split(gap: Seq<char>, word: Seq<char>, rest: Seq<char>)
    requires
        forall|i: int| 0 <= i < gap.len() ==> white_char(#[trigger] gap[i]),
        forall|i: int| 0 <= i < word.len() ==> !white_char(#[trigger] word[i]),
        word.len() > 0,
        rest.len() > 0 ==> white_char(rest[0]),
    ensures
        words_of(gap + word + rest) == seq![word] + words_of(rest),
        words_of(gap) == Seq::<Seq<char>>::empty(),
    decreases gap.len(),
{
    let s = gap + word + rest;
    if gap.len() > 0 {
        let less = gap.drop_first();
        assert(s[0] == gap[0]);
        assert(s.drop_first() =~= less + word + rest);
        lemma_words_split(less, word, rest);
    } else {
        assert(s =~= word + rest);
        lemma_word_len(word, rest);
        assert(s[0] == word[0]);
        assert(s.take(word.len() as int) =~= word);
        assert(s.skip(word.len() as int) =~= rest);
    }
}

/// A character takes two UTF-16 code units exactly where it takes four bytes in UTF-8.
pub proof fn lemma_utf16_width(c: char)
    ensures
        utf16_width(c) == 2 <==> vstd::utf8::encode_scalar(c as u32).len() == 4,
        utf16_width(c) == 1 <==> vstd::utf8::encode_scalar(c as u32).len() < 4,
{
}

/// What is read as a number are digits.
proof fn lemma_digits_only(s: Seq<char>, value: nat)
    requires
        digits_onto(s, value) is Ok,
    ensures
        forall|i: int| 0 <= i < s.len() ==> '0' <= (#[trigger] s[i]) <= '9',
    decreases s.len(),
{
    if s.len() > 0 {
        let rest = s.drop_first();
        lemma_digits_only(rest, (value * 10 + (s[0] as u32 - '0' as u32)) as nat);
        assert forall|i: int| 0 <= i < s.len() implies '0' <= (#[trigger] s[i]) <= '9' by {
            if i > 0 {
                assert(rest[i - 1] == s[i]);
            }
        }
    }
}

/// A text is a number only where it is digits, with at most a plus before them; and
/// the plus says nothing.
pub proof fn lemma_numbers_are_digits(s: Seq<char>)
    ensures
        number_of(s) is Ok ==> s.len() > 0 && ('0' <= s[0] <= '9' || s[0] == '+' && s.len() > 1)
            && forall|i: int| 1 <= i < s.len() ==> '0' <= (#[trigger] s[i]) <= '9',
        s.len() > 0 && s[0] != '+' ==> number_of(seq!['+'] + s) == number_of(s),
{
    if s.len() > 0 {
        if number_of(s) is Ok {
            if s[0] == '+' {
                let rest = s.drop_first();
                lemma_digits_only(rest, 0);
                assert forall|i: int| 1 <= i < s.len() implies '0' <= (#[trigger] s[i])
                    <= '9' by {
                    assert(rest[i - 1] == s[i]);
                }
            } else {
                lemma_digits_only(s, 0);
            }
        }
        assert((seq!['+'] + s).drop_first() =~= s);
    }
}

/// Whether a text ends with another.
pub open spec fn ends_with(s: Seq<char>, end: Seq<char>) -> bool {
    s.len() >= end.len() && s.skip(s.len() - end.len()) == end
}

/// Whether a text holds another.
pub open spec fn mentions(s: Seq<char>, part: Seq<char>) -> bool {
    exists|i: int|
        0 <= i <= s.len() - part.len() && #[trigger] s.subrange(i, i + part.len()) == part
}

/// A message names what it was put together from, and ends with its last part.
pub proof fn lemma_parts_of_message(a: Seq<char>, path: Seq<char>, b: Seq<char>, why: Seq<char>)
    ensures
        ends_with(a + path + b + why, why),
        mentions(a + path + b + why, path),
        ends_with(why, why),
{
    let s = a + path + b + why;
    assert(s.skip(s.len() - why.len()) =~= why);
    assert(s.subrange(a.len() as int, (a.len() + path.len()) as int) =~= path);
    assert(why.skip(0) =~= why);
}


/// In ASCII, what may stand in an identifier are the letters, the digits and the
/// underscore; and what is white space is no such character.
pub proof fn lemma_ascii_classes(c: char)
    requires
        c <= '\u{7f}',
    ensures
        word_char(c) <==> ('0' <= c <= '9' || 'A' <= c <= 'Z' || 'a' <= c <= 'z' || c == '_'),
        white_char(c) ==> !word_char(c) && (c <= ' '),
        c == ' ' || c == '\t' || c == '\n' || c == '\r' ==> white_char(c),
{
}

proof fn lemma_trim_start(gap: Seq<char>, core: Seq<char>)
    requires
        forall|i: int| 0 <= i < gap.len() ==> white_char(#[trigger] gap[i]),
        core.len() > 0,
        !white_char(core[0]),
    ensures
        trim_start(gap + core) == core,
    decreases gap.len(),
{
    let s = gap + core;
    if gap.len() > 0 {
        assert(s[0] == gap[0]);
        assert(s.drop_first() =~= gap.drop_first() + core);
        lemma_trim_start(gap.drop_first(), core);
    } else {
        assert(s =~= core);
    }
}

proof fn lemma_trim_back(core: Seq<char>, gap: Seq<char>)
    requires
        forall|i: int| 0 <= i < gap.len() ==> white_char(#[trigger] gap[i]),
        core.len() > 0,
        !white_char(core.last()),
    ensures
        trim_end(core + gap) == core,
    decreases gap.len(),
{
    let s = core + gap;
    if gap.len() > 0 {
        assert(s.last() == gap.last());
        assert(s.drop_last() =~= core + gap.drop_last());
        lemma_trim_back(core, gap.drop_last());
    } else {
        assert(s =~= core);
    }
}

/// White space round a text is trimmed away, and the text itself stays, whatever white
/// space is within it.
pub proof fn lemma_trimmed(gap: Seq<char>, core: Seq<char>, behind: Seq<char>)
    requires
        forall|i: int| 0 <= i < gap.len() ==> white_char(#[trigger] gap[i]),
        forall|i: int| 0 <= i < behind.len() ==> white_char(#[trigger] behind[i]),
        core.len() > 0,
        !white_char(core[0]),
        !white_char(core.last()),
    ensures
        trim(gap + core + behind) == core,
{
    assert((gap + core).last() == core.last());
    lemma_trim_back(gap + core, behind);
    lemma_trim_start(gap, core);
}

/// A negative number is written with a sign, and with the digits of the number without it.
pub proof fn lemma_signs(n: nat)
    ensures
        signed_decimal(n as int) == decimal(n),
        n > 0 ==> signed_decimal(-(n as int)) == seq!['-'] + decimal(n),
{
    reveal_strlit("-");
    assert("-"@ =~= seq!['-']);
}

} // verus!
