//! Framing: JSON-RPC bodies behind `Content-Length` headers.
//!
//! A body is read by its exact byte count, never by lines, because JSON may hold
//! newlines. Headers end in `\r\n`, with a blank line before the body.

use vstd::prelude::*;
use vstd::string::StringSliceAdditionalSpecFns;
use vstd::utf8::{decode_utf8, encode_utf8, valid_utf8};

use crate::apply::lemma_encode_concat;
use crate::json::{json_bytes, json_parsed, parse_json, storable, write_json, Json, JsonView};
use crate::text::{
    chars_of, decimal, decimal_text, number_of, owned, parse_number, slice_of, text_from_utf8,
    trim, trim_end, trim_start, trimmed, trimmed_len, IntError,
};

verus! {

/// The header of a body of that many bytes.
pub open spec fn header_text(n: nat) -> Seq<char> {
    "Content-Length: "@ + decimal(n) + "\r\n\r\n"@
}

/// A body with its header.
pub open spec fn framed(body: Seq<u8>) -> Seq<u8> {
    encode_utf8(header_text(body.len())) + body
}

/// A message as it goes over the wire.
pub open spec fn message_bytes(msg: JsonView) -> Seq<u8> {
    framed(json_bytes(msg))
}

/// What the bytes that arrived so far hold.
#[derive(Debug)]
pub enum Frame {
    /// One message, in the first `used` bytes.
    Message { value: Json, used: usize },
    /// The beginning of a message.
    Partial,
    /// No message, and never one.
    Failed(String),
    /// The header of a body larger than memory can hold.
    Overlong,
}

/// What bytes hold.
pub enum FrameView {
    Message { value: JsonView, used: nat },
    Partial,
    Failed(Seq<char>),
    Overlong,
}

impl View for Frame {
    type V = FrameView;

    open spec fn view(&self) -> FrameView {
        match *self {
            Frame::Message { value, used } => FrameView::Message {
                value: value@,
                used: used as nat,
            },
            Frame::Partial => FrameView::Partial,
            Frame::Failed(e) => FrameView::Failed(e@),
            Frame::Overlong => FrameView::Overlong,
        }
    }
}

/// Where the first newline at or after `from` stands; the length where there is none.
pub open spec fn newline_at(s: Seq<u8>, from: int) -> int
    decreases s.len() - from,
{
    if from >= s.len() {
        s.len() as int
    } else if s[from] == 10 {
        from
    } else {
        newline_at(s, from + 1)
    }
}

/// Why a length is no number, in words.
pub open spec fn int_error(e: IntError) -> Seq<char> {
    match e {
        IntError::Empty => "cannot parse integer from empty string"@,
        IntError::InvalidDigit => "invalid digit found in string"@,
        IntError::Overflow => "number too large to fit in target type"@,
    }
}

/// Whether a header line gives the length of the body.
pub open spec fn gives_length(line: Seq<char>) -> bool {
    line.len() >= 15 && line.take(15) == "Content-Length:"@
}

/// What the body of `length` bytes at offset `at` holds.
pub open spec fn body_at(s: Seq<u8>, at: int, length: nat, closed: bool) -> FrameView {
    if length > isize::MAX {
        FrameView::Overlong
    } else if s.len() - at < length {
        if closed {
            FrameView::Failed("failed to fill whole buffer"@)
        } else {
            FrameView::Partial
        }
    } else {
        match json_parsed(s.subrange(at, at + length)) {
            Ok(value) => FrameView::Message { value, used: (at + length) as nat },
            Err(e) => FrameView::Failed("frame body was not valid JSON: "@ + e),
        }
    }
}

/// What the bytes from offset `from` on hold, given the length that the header
/// lines before it gave. `closed` tells that no more bytes will come.
pub open spec fn frame_from(s: Seq<u8>, from: int, length: Option<nat>, closed: bool) -> FrameView
    decreases s.len() - from,
    via frame_from_decreases
{
    let k = newline_at(s, from);
    if from < 0 {
        FrameView::Partial
    } else if k >= s.len() && !closed {
        FrameView::Partial
    } else if from >= s.len() {
        FrameView::Failed("server closed stdout before sending a complete frame"@)
    } else {
        let next = if k < s.len() {
            k + 1
        } else {
            s.len() as int
        };
        let bytes = s.subrange(from, next);
        if !valid_utf8(bytes) {
            FrameView::Failed("stream did not contain valid UTF-8"@)
        } else {
            let line = trim_end(decode_utf8(bytes));
            if line.len() == 0 {
                match length {
                    Some(n) => body_at(s, next, n, closed),
                    None => FrameView::Failed("frame had no Content-Length header"@),
                }
            } else if gives_length(line) {
                match number_of(trim(line.skip(15))) {
                    Ok(n) => frame_from(s, next, Some(n), closed),
                    Err(e) => FrameView::Failed("bad Content-Length: "@ + int_error(e)),
                }
            } else {
                frame_from(s, next, length, closed)
            }
        }
    }
}

#[via_fn]
proof fn frame_from_decreases(s: Seq<u8>, from: int, length: Option<nat>, closed: bool) {
    if 0 <= from < s.len() {
        lemma_newline_at(s, from);
    }
}

/// What bytes hold: one message, the beginning of one, or neither.
pub open spec fn frame_in(s: Seq<u8>, closed: bool) -> FrameView {
    frame_from(s, 0, None, closed)
}

/// The newline found is at or behind the start, and none stands before it.
proof fn lemma_newline_at(s: Seq<u8>, from: int)
    requires
        0 <= from <= s.len(),
    ensures
        from <= newline_at(s, from) <= s.len(),
    decreases s.len() - from,
{
    if from < s.len() && s[from] != 10 {
        lemma_newline_at(s, from + 1);
    }
}

proof fn lemma_newline_is(s: Seq<u8>, from: int, k: int)
    requires
        0 <= from <= k < s.len(),
        s[k] == 10,
        forall|j: int| from <= j < k ==> s[j] != 10,
    ensures
        newline_at(s, from) == k,
    decreases k - from,
{
    if from < k {
        lemma_newline_is(s, from + 1, k);
    }
}

/// Frames one message: `Content-Length: N`, a blank line and `N` bytes of JSON.
/// What is framed is read back as the message, whatever follows it on the wire.
pub fn send_message(msg: &Json) -> (r: Vec<u8>)
    ensures
        r@ == message_bytes(msg@),
        storable(msg@, 127) ==> comes_back(msg@),
        storable(msg@, 127) && json_bytes(msg@).len() <= isize::MAX ==> forall|
            rest: Seq<u8>,
            closed: bool,
        | #[trigger]
            frame_in(r@ + rest, closed) == (FrameView::Message {
                value: msg@,
                used: r@.len(),
            }),
{
    let body = write_json(msg);
    let mut header = owned("Content-Length: ");
    let size = decimal_text(body.len() as u64);
    header.append(size.as_str());
    header.append("\r\n\r\n");
    let mut out: Vec<u8> = Vec::new();
    out.extend_from_slice(header.as_str().as_bytes());
    out.extend_from_slice(body.as_slice());
    assert(out@ =~= framed(body@));
    proof {
        if storable(msg@, 127) && body@.len() <= isize::MAX {
            assert forall|rest: Seq<u8>, closed: bool| #[trigger]
                frame_in(out@ + rest, closed) == (FrameView::Message {
                    value: msg@,
                    used: out@.len(),
                }) by {
                lemma_frame_round_trip(body@, rest, closed);
            }
        }
    }
    out
}

fn int_error_text(e: IntError) -> (r: String)
    ensures
        r@ == int_error(e),
{
    match e {
        IntError::Empty => owned("cannot parse integer from empty string"),
        IntError::InvalidDigit => owned("invalid digit found in string"),
        IntError::Overflow => owned("number too large to fit in target type"),
    }
}

/// A copy of `bytes[from..to]`.
fn bytes_between(bytes: &[u8], from: usize, to: usize) -> (r: Vec<u8>)
    requires
        from <= to <= bytes@.len(),
    ensures
        r@ == bytes@.subrange(from as int, to as int),
{
    let mut out: Vec<u8> = Vec::new();
    out.extend_from_slice(vstd::slice::slice_subrange(bytes, from, to));
    assert(out@ =~= bytes@.subrange(from as int, to as int));
    out
}

/// Reads the body at offset `at`.
fn read_body(input: &[u8], at: usize, length: usize, closed: bool) -> (r: Frame)
    requires
        at <= input@.len(),
    ensures
        r@ == body_at(input@, at as int, length as nat, closed),
{
    if length > isize::MAX as usize {
        return Frame::Overlong;
    }
    if input.len() - at < length {
        if closed {
            return Frame::Failed(owned("failed to fill whole buffer"));
        }
        return Frame::Partial;
    }
    match parse_json(vstd::slice::slice_subrange(input, at, at + length)) {
        Ok(value) => Frame::Message { value, used: at + length },
        Err(e) => {
            let mut m = owned("frame body was not valid JSON: ");
            m.append(e.as_str());
            Frame::Failed(m)
        },
    }
}

/// Reads one framed message off the front of what has arrived: header lines up
/// to the blank one, then exactly `Content-Length` bytes of JSON. `closed` tells
/// that no more bytes will come.
pub fn read_message(input: &[u8], closed: bool) -> (r: Frame)
    ensures
        r@ == frame_in(input@, closed),
{
    let ghost s = input@;
    let mut from: usize = 0;
    let mut length: Option<usize> = None;
    loop
        invariant
            s == input@,
            from <= s.len(),
            frame_from(
                s,
                from as int,
                match length {
                    Some(n) => Some(n as nat),
                    None => None,
                },
                closed,
            ) == frame_in(s, closed),
        decreases s.len() - from,
    {
        let mut k: usize = from;
        while k < input.len() && input[k] != 10
            invariant
                s == input@,
                from <= k <= s.len(),
                newline_at(s, k as int) == newline_at(s, from as int),
            decreases s.len() - k,
        {
            k += 1;
        }
        if k >= input.len() && !closed {
            return Frame::Partial;
        }
        if from >= input.len() {
            return Frame::Failed(owned("server closed stdout before sending a complete frame"));
        }
        let next: usize = if k < input.len() {
            k + 1
        } else {
            input.len()
        };
        let line = match text_from_utf8(bytes_between(input, from, next)) {
            Ok(t) => chars_of(t.as_str()),
            Err(_) => return Frame::Failed(owned("stream did not contain valid UTF-8")),
        };
        let n: usize = trimmed_len(&line);
        if n == 0 {
            return match length {
                Some(size) => read_body(input, next, size, closed),
                None => Frame::Failed(owned("frame had no Content-Length header")),
            };
        }
        let kept = slice_of(&line, 0, n);
        assert(kept@ =~= line@.take(n as int));
        proof {
            reveal_strlit("Content-Length:");
        }
        if n >= 15 {
            let head = crate::text::text_of(&kept, 0, 15);
            assert(head@ =~= kept@.take(15));
            if crate::text::same_text(head.as_str(), "Content-Length:") {
                let value = slice_of(&kept, 15, n);
                assert(value@ =~= kept@.skip(15));
                match parse_number(&trimmed(&value)) {
                    Ok(size) => {
                        length = Some(size);
                    },
                    Err(e) => {
                        let mut m = owned("bad Content-Length: ");
                        let why = int_error_text(e);
                        m.append(why.as_str());
                        return Frame::Failed(m);
                    },
                }
            }
        }
        from = next;
    }
}

/// A number in decimal begins and ends with what is no white space.
proof fn lemma_decimal_trimmed(n: nat)
    requires
        n <= usize::MAX,
    ensures
        trim_end(decimal(n)) == decimal(n),
        trim(seq![' '] + decimal(n)) == decimal(n),
{
    let d = decimal(n);
    crate::resolve::lemma_decimal_round_trip(n);
    assert('0' <= d[d.len() - 1] <= '9');
    assert('0' <= d[0] <= '9');
    let s = seq![' '] + d;
    assert(s.last() == d[d.len() - 1]);
    assert(trim_end(s) == s);
    assert(s.drop_first() =~= d);
    reveal_with_fuel(trim_start, 2);
}

/// The line of a header that gives a length.
spec fn length_line(n: nat) -> Seq<char> {
    "Content-Length: "@ + decimal(n) + seq!['\r', '\n']
}

/// The header of a frame: a line that gives the length, and a blank one.
proof fn lemma_header(n: nat)
    requires
        n <= isize::MAX,
    ensures
        ({
            let a = encode_utf8(length_line(n));
            &&& encode_utf8(header_text(n)) == a + seq![13u8, 10u8]
            &&& a.len() == length_line(n).len()
            &&& a.len() > 0
            &&& a.last() == 10
            &&& forall|j: int| 0 <= j < a.len() - 1 ==> a[j] != 10
            &&& valid_utf8(a)
            &&& gives_length(trim_end(decode_utf8(a)))
            &&& number_of(trim(trim_end(decode_utf8(a)).skip(15))) == Ok::<nat, IntError>(n)
        }),
{
    let d = decimal(n);
    let name = "Content-Length: "@;
    let first = length_line(n);
    let second = seq!['\r', '\n'];
    reveal_strlit("Content-Length: ");
    reveal_strlit("Content-Length:");
    reveal_strlit("\r\n\r\n");
    crate::resolve::lemma_decimal_round_trip(n);
    lemma_decimal_trimmed(n);
    assert(header_text(n) =~= first + second);
    lemma_encode_concat(first, second);
    assert(vstd::utf8::is_ascii_chars(first)) by {
        assert forall|i: int| 0 <= i < first.len() implies '\0' <= #[trigger] first[i] <= '\u{7f}' by {
            if 16 <= i < 16 + d.len() {
                assert(first[i] == d[i - 16]);
            }
        }
    }
    vstd::utf8::is_ascii_chars_encode_utf8(first);
    vstd::utf8::is_ascii_chars_encode_utf8(second);
    let a = encode_utf8(first);
    let m = first.len() as int;
    assert(encode_utf8(second) =~= seq![13u8, 10u8]);
    assert(a[m - 1] == first[m - 1] as u8);
    assert forall|j: int| 0 <= j < m - 1 implies a[j] != 10 by {
        assert(a[j] == first[j] as u8);
        if 16 <= j < 16 + d.len() {
            assert(first[j] == d[j - 16]);
        }
    }
    vstd::utf8::encode_utf8_valid_utf8(first);
    vstd::utf8::encode_utf8_decode_utf8(first);
    let line = name + d;
    assert(trim_end(first) == line) by {
        reveal_with_fuel(trim_end, 3);
        assert(first.drop_last() =~= line.push('\r'));
        assert(line.push('\r').drop_last() =~= line);
        assert(line.last() == d[d.len() - 1]);
    }
    assert(line.take(15) =~= "Content-Length:"@);
    assert(line.skip(15) =~= seq![' '] + d);
}

/// Behind a header line that gives a length, the rest is read with that length.
proof fn lemma_length_read(n: nat, s: Seq<u8>, closed: bool)
    requires
        n <= isize::MAX,
        s.len() >= encode_utf8(length_line(n)).len(),
        s.take(encode_utf8(length_line(n)).len() as int) == encode_utf8(length_line(n)),
    ensures
        frame_in(s, closed) == frame_from(
            s,
            encode_utf8(length_line(n)).len() as int,
            Some(n),
            closed,
        ),
{
    lemma_header(n);
    let a = encode_utf8(length_line(n));
    let m = a.len() as int;
    assert forall|j: int| 0 <= j < m implies s[j] == a[j] by {
        assert(s.take(m)[j] == s[j]);
    }
    lemma_newline_is(s, 0, m - 1);
    assert(s.subrange(0, m) =~= a);
}

/// Behind a blank line the body is read.
proof fn lemma_blank_read(s: Seq<u8>, from: int, n: nat, closed: bool)
    requires
        0 <= from,
        from + 2 <= s.len(),
        s[from] == 13,
        s[from + 1] == 10,
    ensures
        frame_from(s, from, Some(n), closed) == body_at(s, from + 2, n, closed),
{
    let second = seq!['\r', '\n'];
    vstd::utf8::is_ascii_chars_encode_utf8(second);
    vstd::utf8::encode_utf8_valid_utf8(second);
    vstd::utf8::encode_utf8_decode_utf8(second);
    lemma_newline_is(s, from, from + 1);
    assert(s.subrange(from, from + 2) =~= encode_utf8(second));
    assert(trim_end(second).len() == 0) by {
        reveal_with_fuel(trim_end, 3);
        assert(second.drop_last() =~= seq!['\r']);
        assert(seq!['\r'].drop_last() =~= Seq::empty());
    }
}

/// A frame is read back, whatever follows it, and exactly its own bytes are used
/// up; its body decides what comes out.
pub proof fn lemma_frame_round_trip(body: Seq<u8>, rest: Seq<u8>, closed: bool)
    requires
        body.len() <= isize::MAX,
    ensures
        frame_in(framed(body) + rest, closed) == (match json_parsed(body) {
            Ok(value) => FrameView::Message { value, used: framed(body).len() },
            Err(e) => FrameView::Failed("frame body was not valid JSON: "@ + e),
        }),
{
    let n = body.len();
    let a = encode_utf8(length_line(n));
    let m = a.len() as int;
    let s = framed(body) + rest;
    lemma_header(n);
    assert(s =~= a + seq![13u8, 10u8] + body + rest);
    assert(s.take(m) =~= a);
    lemma_length_read(n, s, closed);
    lemma_blank_read(s, m, n, closed);
    assert(s.subrange(m + 2, m + 2 + n) =~= body);
}

/// No newline is found where there is none.
proof fn lemma_no_newline(s: Seq<u8>, from: int)
    requires
        0 <= from <= s.len(),
        forall|j: int| from <= j < s.len() ==> s[j] != 10,
    ensures
        newline_at(s, from) == s.len(),
    decreases s.len() - from,
{
    if from < s.len() {
        lemma_no_newline(s, from + 1);
    }
}

/// What is only the beginning of a frame is never taken for a message nor for a
/// failure while more may come; when no more will come, it is a failure.
pub proof fn lemma_beginnings_of_frames(body: Seq<u8>, k: int)
    requires
        body.len() <= isize::MAX,
        0 <= k < framed(body).len(),
    ensures
        frame_in(framed(body).take(k), false) is Partial,
        k == 0 || k >= framed(body).len() - body.len() ==> frame_in(
            framed(body).take(k),
            true,
        ) is Failed,
{
    let n = body.len();
    let a = encode_utf8(length_line(n));
    let m = a.len() as int;
    let s = framed(body).take(k);
    lemma_header(n);
    assert(framed(body) =~= a + seq![13u8, 10u8] + body);
    if k < m {
        lemma_no_newline(s, 0);
    } else {
        assert(s.take(m) =~= a);
        lemma_length_read(n, s, false);
        lemma_length_read(n, s, true);
        if k < m + 2 {
            lemma_no_newline(s, m);
        } else {
            lemma_blank_read(s, m, n, false);
            lemma_blank_read(s, m, n, true);
        }
    }
}

/// The same reading with so many bytes before it.
pub open spec fn later(f: FrameView, n: nat) -> FrameView {
    match f {
        FrameView::Message { value, used } => FrameView::Message { value, used: used + n },
        other => other,
    }
}

proof fn lemma_read_later(
    before: Seq<u8>,
    s: Seq<u8>,
    from: int,
    length: Option<nat>,
    closed: bool,
)
    requires
        0 <= from <= s.len(),
    ensures
        frame_from(before + s, before.len() + from, length, closed) == later(
            frame_from(s, from, length, closed),
            before.len(),
        ),
    decreases s.len() - from,
{
    let all = before + s;
    let n = before.len() as int;
    lemma_newline_later(before, s, from);
    lemma_newline_at(s, from);
    let k = newline_at(s, from);
    if from < s.len() && (k < s.len() || closed) {
        let next = if k < s.len() {
            k + 1
        } else {
            s.len() as int
        };
        assert(all.subrange(n + from, n + next) =~= s.subrange(from, next));
        lemma_read_later(before, s, next, length, closed);
        let line = trim_end(decode_utf8(s.subrange(from, next)));
        match number_of(trim(line.skip(15))) {
            Ok(v) => {
                lemma_read_later(before, s, next, Some(v), closed);
            },
            Err(_) => {},
        }
        match length {
            Some(v) => {
                if next + v <= s.len() {
                    assert(all.subrange(n + next, n + next + v) =~= s.subrange(next, next + v));
                }
            },
            None => {},
        }
    }
}

proof fn lemma_newline_later(before: Seq<u8>, s: Seq<u8>, from: int)
    requires
        0 <= from <= s.len(),
    ensures
        newline_at(before + s, before.len() + from) == before.len() + newline_at(s, from),
    decreases s.len() - from,
{
    if from < s.len() && s[from] != 10 {
        lemma_newline_later(before, s, from + 1);
    }
}

/// A header line that is neither blank nor gives a length says nothing: what follows is
/// read as it would be without it.
pub proof fn lemma_other_headers_are_passed_over(line: Seq<char>, s: Seq<u8>, closed: bool)
    requires
        line.len() > 0,
        line.last() == '\n',
        forall|j: int| 0 <= j < encode_utf8(line).len() - 1 ==> encode_utf8(line)[j] != 10,
        encode_utf8(line).last() == 10,
        trim_end(line).len() > 0,
        trim_end(line).len() < 15 || trim_end(line).take(15) != "Content-Length:"@,
    ensures
        frame_in(encode_utf8(line) + s, closed) == later(
            frame_in(s, closed),
            encode_utf8(line).len(),
        ),
{
    let a = encode_utf8(line);
    let all = a + s;
    let m = a.len() as int;
    vstd::utf8::encode_utf8_valid_utf8(line);
    vstd::utf8::encode_utf8_decode_utf8(line);
    assert(a.len() > 0) by {
        if a.len() == 0 {
            assert(a =~= Seq::empty());
            assert(decode_utf8(a) == line);
            assert(encode_utf8(Seq::<char>::empty()) =~= a);
            vstd::utf8::encode_utf8_decode_utf8(Seq::<char>::empty());
        }
    }
    lemma_newline_is(all, 0, m - 1);
    assert(all.subrange(0, m) =~= a);
    lemma_read_later(a, s, 0, None, closed);
}

/// A frame is read the same with another header line behind the one that gives the
/// length.
pub proof fn lemma_headers_behind_the_length(
    line: Seq<char>,
    body: Seq<u8>,
    rest: Seq<u8>,
    closed: bool,
)
    requires
        body.len() <= isize::MAX,
        line.len() > 0,
        forall|j: int| 0 <= j < encode_utf8(line).len() - 1 ==> encode_utf8(line)[j] != 10,
        encode_utf8(line).len() > 0,
        encode_utf8(line).last() == 10,
        trim_end(line).len() > 0,
        trim_end(line).len() < 15 || trim_end(line).take(15) != "Content-Length:"@,
    ensures
        ({
            let given = encode_utf8("Content-Length: "@ + decimal(body.len()) + seq!['\r', '\n']);
            let head = given + encode_utf8(line) + seq![13u8, 10u8];
            frame_in(head + body + rest, closed) == (match json_parsed(body) {
                Ok(value) => FrameView::Message { value, used: head.len() + body.len() },
                Err(e) => FrameView::Failed("frame body was not valid JSON: "@ + e),
            })
        }),
{
    let n = body.len();
    let a = encode_utf8(length_line(n));
    let b = encode_utf8(line);
    let s = a + b + seq![13u8, 10u8] + body + rest;
    let m = a.len() as int;
    let k = m + b.len();
    assert(s.take(m) =~= a);
    lemma_length_read(n, s, closed);
    assert forall|j: int| m <= j < k - 1 implies s[j] != 10 by {
        assert(s[j] == b[j - m]);
    }
    assert(s[k - 1] == b.last());
    lemma_newline_is(s, m, k - 1);
    assert(s.subrange(m, k) =~= b);
    vstd::utf8::encode_utf8_valid_utf8(line);
    vstd::utf8::encode_utf8_decode_utf8(line);
    assert(frame_from(s, m, Some(n), closed) == frame_from(s, k, Some(n), closed));
    lemma_blank_read(s, k, n, closed);
    assert(s.subrange(k + 2, k + 2 + n) =~= body);
}

/// Whether a message comes back from its own text.
pub open spec fn comes_back(msg: JsonView) -> bool {
    json_parsed(json_bytes(msg)) == Ok::<JsonView, Seq<char>>(msg)
}

/// Messages are read back in turn: of two that were written one behind the other
/// the first reading gives the first and uses up its bytes alone, the next gives
/// the second, and nothing is left for a third.
pub proof fn lemma_messages_in_turn(first: JsonView, second: JsonView)
    requires
        comes_back(first),
        comes_back(second),
        json_bytes(first).len() <= isize::MAX,
        json_bytes(second).len() <= isize::MAX,
    ensures
        ({
            let a = message_bytes(first);
            let b = message_bytes(second);
            &&& frame_in(a + b, true) == (FrameView::Message { value: first, used: a.len() })
            &&& (a + b).skip(a.len() as int) == b
            &&& frame_in(b, true) == (FrameView::Message { value: second, used: b.len() })
            &&& b.skip(b.len() as int) == Seq::<u8>::empty()
            &&& frame_in(Seq::empty(), true) == FrameView::Failed(
                "server closed stdout before sending a complete frame"@,
            )
        }),
{
    let a = message_bytes(first);
    let b = message_bytes(second);
    lemma_frame_round_trip(json_bytes(first), b, true);
    lemma_frame_round_trip(json_bytes(second), Seq::empty(), true);
    assert(b + Seq::<u8>::empty() =~= b);
    assert((a + b).skip(a.len() as int) =~= b);
    assert(b.skip(b.len() as int) =~= Seq::<u8>::empty());
}

} // verus!
