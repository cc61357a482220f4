//! `file://` URIs and the paths that they stand for.

use vstd::prelude::*;
use vstd::string::StringSliceAdditionalSpecFns;
use vstd::utf8::{
    decode_utf8, encode_utf8, is_char_boundary, is_continuation_byte, valid_utf8,
};

use crate::apply::lemma_encode_concat;
use crate::text::{chars_of, owned, text_of};

verus! {

/// The text that `String::from_utf8_lossy` makes of bytes.
pub uninterp spec fn utf8_lossy(bytes: Seq<u8>) -> Seq<char>;

/// `String::from_utf8_lossy`: valid UTF-8 is decoded as it is; elsewhere what is
/// invalid is replaced, and how is left to the name.
#[verifier::external_body]
fn from_utf8_lossy(bytes: &Vec<u8>) -> (r: String)
    ensures
        r@ == utf8_lossy(bytes@),
        valid_utf8(bytes@) ==> r@ == decode_utf8(bytes@),
{
    String::from_utf8_lossy(bytes).into_owned()
}

/// A byte that stands for itself in a URI path: an unreserved character or `/`.
pub open spec fn plain_byte(b: u8) -> bool {
    ||| 0x41 <= b <= 0x5a
    ||| 0x61 <= b <= 0x7a
    ||| 0x30 <= b <= 0x39
    ||| b == 0x2d
    ||| b == 0x2e
    ||| b == 0x5f
    ||| b == 0x7e
    ||| b == 0x2f
}

/// The upper-case hexadecimal digit of a value below sixteen.
pub open spec fn hex_char(d: u8) -> char {
    if d < 10 {
        (0x30 + d) as char
    } else {
        (0x37 + d) as char
    }
}

/// One byte of a path as it is written in a URI.
pub open spec fn escape(b: u8) -> Seq<char> {
    if plain_byte(b) {
        seq![b as char]
    } else {
        seq!['%', hex_char(b / 16), hex_char(b % 16)]
    }
}

/// The bytes of a path as they are written in a URI.
pub open spec fn escaped(bytes: Seq<u8>) -> Seq<char>
    decreases bytes.len(),
{
    if bytes.len() == 0 {
        Seq::empty()
    } else {
        escape(bytes[0]) + escaped(bytes.drop_first())
    }
}

/// The URI of a path.
pub open spec fn uri_of(path: Seq<char>) -> Seq<char> {
    "file://"@ + escaped(encode_utf8(path))
}

/// The value of a hexadecimal digit of either case.
pub open spec fn hex_value(b: u8) -> Option<u8> {
    if 0x30 <= b <= 0x39 {
        Some((b - 0x30) as u8)
    } else if 0x41 <= b <= 0x46 {
        Some((b - 0x37) as u8)
    } else if 0x61 <= b <= 0x66 {
        Some((b - 0x57) as u8)
    } else {
        None
    }
}

/// The byte that two characters spell in hexadecimal; a `+` in front of one digit counts too.
pub open spec fn hex_byte(a: u8, b: u8) -> Option<u8> {
    if a == 0x2b {
        hex_value(b)
    } else {
        match (hex_value(a), hex_value(b)) {
            (Some(x), Some(y)) => Some((16 * x + y) as u8),
            _ => None,
        }
    }
}

/// The bytes with every escape decoded. An escape is a `%` and two characters that
/// spell a byte; any other `%` stands for itself.
pub open spec fn unescaped(s: Seq<u8>) -> Seq<u8>
    decreases s.len(),
{
    if s.len() == 0 {
        Seq::empty()
    } else if s[0] == 0x25 && s.len() > 2 && hex_byte(s[1], s[2]) is Some {
        seq![hex_byte(s[1], s[2])->0] + unescaped(s.skip(3))
    } else {
        seq![s[0]] + unescaped(s.drop_first())
    }
}

/// A URI without its scheme.
pub open spec fn without_scheme(uri: Seq<char>) -> Seq<char> {
    if uri.len() >= 7 && uri.take(7) == "file://"@ {
        uri.skip(7)
    } else {
        uri
    }
}

/// Whether no `%` with two bytes behind it is followed by half a character.
pub open spec fn decodable(uri: Seq<char>) -> bool {
    let s = encode_utf8(without_scheme(uri));
    forall|i: int| 0 <= i && i + 2 < s.len() && #[trigger] s[i] == 0x25 ==> is_char_boundary(s, i + 3)
}

/// The path that a URI stands for.
pub open spec fn path_of(uri: Seq<char>) -> Seq<char> {
    let bytes = unescaped(encode_utf8(without_scheme(uri)));
    if valid_utf8(bytes) {
        decode_utf8(bytes)
    } else {
        utf8_lossy(bytes)
    }
}

fn hex_digit(d: u8) -> (c: char)
    requires
        d < 16,
    ensures
        c == hex_char(d),
{
    if d < 10 {
        (0x30 + d) as char
    } else {
        (0x37 + d) as char
    }
}

/// The `file://` URI of an absolute path, percent-encoding everything outside the
/// unreserved characters of RFC 3986 and `/`.
pub fn path_to_uri(path: &str) -> (r: String)
    ensures
        r@ == uri_of(path@),
{
    let mut out = owned("file://");
    let bytes: &[u8] = path.as_bytes();
    let ghost all = bytes@;
    let mut i: usize = 0;
    assert(all.skip(0) =~= all);
    while i < bytes.len()
        invariant
            all == bytes@,
            i <= all.len(),
            out@ + escaped(all.skip(i as int)) == "file://"@ + escaped(all),
        decreases all.len() - i,
    {
        let b: u8 = bytes[i];
        let ghost before = out@;
        let ghost rest = all.skip(i as int);
        if (0x41 <= b && b <= 0x5a) || (0x61 <= b && b <= 0x7a) || (0x30 <= b && b <= 0x39) || b
            == 0x2d || b == 0x2e || b == 0x5f || b == 0x7e || b == 0x2f {
            out.push(b as char);
        } else {
            out.push('%');
            out.push(hex_digit(b / 16));
            out.push(hex_digit(b % 16));
        }
        proof {
            assert(rest.drop_first() =~= all.skip(i + 1));
            assert(out@ =~= before + escape(b));
            assert(out@ + escaped(all.skip(i + 1)) =~= before + escaped(rest));
        }
        i += 1;
    }
    assert(all.skip(i as int) =~= Seq::empty());
    assert(out@ + escaped(all.skip(i as int)) =~= out@);
    out
}

fn digit_value(b: u8) -> (r: Option<u8>)
    ensures
        r == hex_value(b),
        r matches Some(d) ==> d < 16,
{
    if 0x30 <= b && b <= 0x39 {
        Some(b - 0x30)
    } else if 0x41 <= b && b <= 0x46 {
        Some(b - 0x37)
    } else if 0x61 <= b && b <= 0x66 {
        Some(b - 0x57)
    } else {
        None
    }
}

fn escape_value(a: u8, b: u8) -> (r: Option<u8>)
    ensures
        r == hex_byte(a, b),
{
    if a == 0x2b {
        digit_value(b)
    } else {
        match (digit_value(a), digit_value(b)) {
            (Some(x), Some(y)) => Some(16 * x + y),
            _ => None,
        }
    }
}

/// The path that a URI stands for; nothing where a `%` is followed by half a character.
pub fn try_uri_to_path(uri: &str) -> (r: Option<String>)
    ensures
        r is Some <==> decodable(uri@),
        r matches Some(p) ==> p@ == path_of(uri@),
{
    let chars = chars_of(uri);
    let mut from: usize = 0;
    proof {
        reveal_strlit("file://");
        assert(chars@.subrange(0, chars@.len() as int) =~= chars@);
    }
    if chars.len() >= 7 {
        let head = text_of(&chars, 0, 7);
        assert(head@ =~= uri@.take(7));
        if crate::text::same_text(head.as_str(), "file://") {
            from = 7;
            assert(chars@.subrange(7, chars@.len() as int) =~= uri@.skip(7));
        }
    }
    let raw = text_of(&chars, from, chars.len());
    assert(raw@ == without_scheme(uri@));
    let bytes: &[u8] = raw.as_str().as_bytes();
    let ghost s = bytes@;
    let mut decoded: Vec<u8> = Vec::new();
    let mut i: usize = 0;
    assert(s.skip(0) =~= s);
    while i < bytes.len()
        invariant
            s == bytes@,
            s == encode_utf8(raw@),
            raw@ == without_scheme(uri@),
            i <= s.len(),
            decoded@ + unescaped(s.skip(i as int)) == unescaped(s),
            forall|j: int|
                0 <= j < i && j + 2 < s.len() && #[trigger] s[j] == 0x25 ==> is_char_boundary(
                    s,
                    j + 3,
                ),
        decreases s.len() - i,
    {
        let ghost rest = s.skip(i as int);
        let ghost before = decoded@;
        let b: u8 = bytes[i];
        let mut found: Option<u8> = None;
        if b == 0x25 && bytes.len() - i > 2 {
            if !raw.as_str().is_char_boundary(i + 3) {
                return None;
            }
            found = escape_value(bytes[i + 1], bytes[i + 2]);
        }
        match found {
            Some(v) => {
                decoded.push(v);
                proof {
                    assert(rest.skip(3) =~= s.skip(i + 3));
                    assert(decoded@ + unescaped(s.skip(i + 3)) =~= before + unescaped(rest));
                    assert(s[i + 1] != 0x25 && s[i + 2] != 0x25);
                }
                i += 3;
            },
            None => {
                decoded.push(b);
                proof {
                    assert(rest.drop_first() =~= s.skip(i + 1));
                    assert(decoded@ + unescaped(s.skip(i + 1)) =~= before + unescaped(rest));
                }
                i += 1;
            },
        }
    }
    proof {
        assert(s.skip(i as int) =~= Seq::empty());
        assert(decoded@ + unescaped(s.skip(i as int)) =~= decoded@);
    }
    Some(from_utf8_lossy(&decoded))
}

/// Turns a `file://` URI into a path. Escapes decode to bytes, and the bytes are
/// read as UTF-8.
pub fn uri_to_path(uri: &str) -> (r: String)
    requires
        decodable(uri@),
    ensures
        r@ == path_of(uri@),
{
    match try_uri_to_path(uri) {
        Some(p) => p,
        None => String::new(),
    }
}

/// One escaped byte: ASCII characters that decode to it.
proof fn lemma_escape(b: u8, rest: Seq<u8>)
    ensures
        vstd::utf8::is_ascii_chars(escape(b)),
        unescaped(encode_utf8(escape(b)) + rest) == seq![b] + unescaped(rest),
{
    let e = escape(b);
    vstd::utf8::is_ascii_chars_encode_utf8(e);
    let code = encode_utf8(e);
    let s = code + rest;
    if plain_byte(b) {
        assert(e[0] as u8 == b);
        assert(code[0] == b);
        assert(s[0] == b);
        assert(s.drop_first() =~= rest);
    } else {
        let hi: u8 = b / 16;
        let lo: u8 = b % 16;
        assert(code[0] == e[0] as u8);
        assert(code[1] == e[1] as u8);
        assert(code[2] == e[2] as u8);
        assert(hex_value(code[1]) == Some(hi));
        assert(hex_value(code[2]) == Some(lo));
        assert(hex_byte(code[1], code[2]) == Some(b));
        assert(s[0] == code[0] && s[1] == code[1] && s[2] == code[2]);
        assert(s.skip(3) =~= rest);
    }
}

/// What is escaped is ASCII and decodes to the bytes that it was made of.
proof fn lemma_escaped(bytes: Seq<u8>)
    ensures
        vstd::utf8::is_ascii_chars(escaped(bytes)),
        unescaped(encode_utf8(escaped(bytes))) == bytes,
    decreases bytes.len(),
{
    if bytes.len() > 0 {
        let rest = bytes.drop_first();
        lemma_escaped(rest);
        lemma_encode_concat(escape(bytes[0]), escaped(rest));
        lemma_escape(bytes[0], encode_utf8(escaped(rest)));
        assert(seq![bytes[0]] + rest =~= bytes);
        vstd::utf8::is_ascii_chars_concat(escaped(bytes), escape(bytes[0]), escaped(rest));
    } else {
        assert(bytes =~= Seq::empty());
    }
}

/// The path of the URI of a path is that path, whatever characters are in it.
pub proof fn lemma_uri_round_trip(path: Seq<char>)
    ensures
        decodable(uri_of(path)),
        path_of(uri_of(path)) == path,
{
    let bytes = encode_utf8(path);
    let uri = uri_of(path);
    reveal_strlit("file://");
    lemma_escaped(bytes);
    assert(uri.take(7) =~= "file://"@);
    assert(without_scheme(uri) =~= escaped(bytes));
    let s = encode_utf8(escaped(bytes));
    vstd::utf8::is_ascii_chars_encode_utf8(escaped(bytes));
    vstd::utf8::encode_utf8_valid_utf8(escaped(bytes));
    vstd::utf8::is_char_boundary_start_end_of_seq(s);
    assert forall|i: int| 0 <= i && i + 2 < s.len() && #[trigger] s[i] == 0x25 implies is_char_boundary(
        s,
        i + 3,
    ) by {
        if i + 3 < s.len() {
            assert(s[i + 3] == escaped(bytes)[i + 3] as u8);
            vstd::utf8::is_char_boundary_iff_not_is_continuation_byte(s, i + 3);
        }
    }
    vstd::utf8::encode_utf8_valid_utf8(path);
    vstd::utf8::encode_utf8_decode_utf8(path);
}

// ---------------------------------------------------------------------------
// What holds of escapes
// ---------------------------------------------------------------------------

/// The digit of a value below sixteen, in capitals or not.
pub open spec fn digit_of(d: int, capital: bool) -> int {
    if d < 10 {
        0x30 + d
    } else if capital {
        0x41 + d - 10
    } else {
        0x61 + d - 10
    }
}

/// A percent sign and two hexadecimal digits, in capitals or not, stand for the byte of
/// that value; any other byte stands for itself.
pub proof fn lemma_escapes_are_read(b: u8, first: bool, second: bool, rest: Seq<u8>)
    ensures
        unescaped(
            seq![0x25u8, digit_of(b as int / 16, first) as u8, digit_of(b as int % 16, second) as u8]
                + rest,
        ) == seq![b] + unescaped(rest),
        b != 0x25 ==> unescaped(seq![b] + rest) == seq![b] + unescaped(rest),
{
    let hi = digit_of(b as int / 16, first) as u8;
    let lo = digit_of(b as int % 16, second) as u8;
    let s = seq![0x25u8, hi, lo] + rest;
    assert(s.skip(3) =~= rest);
    assert(hex_value(hi) == Some((b as int / 16) as u8));
    assert(hex_value(lo) == Some((b as int % 16) as u8));
    assert((seq![b] + rest).drop_first() =~= rest);
}

/// Whether a character of a path stands for itself in a URI: an ASCII letter or digit,
/// a dash, a dot, an underscore, a tilde or a slash.
pub open spec fn needs_no_escape(c: char) -> bool {
    ||| 'A' <= c <= 'Z'
    ||| 'a' <= c <= 'z'
    ||| '0' <= c <= '9'
    ||| c == '-' || c == '.' || c == '_' || c == '~' || c == '/'
}

proof fn lemma_escape_safe(bytes: Seq<u8>)
    ensures
        forall|i: int|
            0 <= i < escaped(bytes).len() ==> needs_no_escape(#[trigger] escaped(bytes)[i])
                || escaped(bytes)[i] == '%',
        escaped(bytes).len() >= bytes.len(),
    decreases bytes.len(),
{
    if bytes.len() > 0 {
        let head = escape(bytes[0]);
        let rest = escaped(bytes.drop_first());
        lemma_escape_safe(bytes.drop_first());
        assert forall|i: int| 0 <= i < escaped(bytes).len() implies needs_no_escape(
            #[trigger] escaped(bytes)[i],
        ) || escaped(bytes)[i] == '%' by {
            if i < head.len() {
                assert(escaped(bytes)[i] == head[i]);
            } else {
                assert(escaped(bytes)[i] == rest[i - head.len()]);
            }
        }
    }
}

/// A URI holds nothing but characters that stand for themselves, and escapes.
pub proof fn lemma_uris_are_safe(path: Seq<char>, i: int)
    requires
        7 <= i < uri_of(path).len(),
    ensures
        needs_no_escape(uri_of(path)[i]) || uri_of(path)[i] == '%',
        uri_of(path).take(7) == "file://"@,
{
    reveal_strlit("file://");
    assert("file://"@.len() == 7);
    lemma_escape_safe(encode_utf8(path));
    assert(uri_of(path)[i] == escaped(encode_utf8(path))[i - 7]);
    assert(uri_of(path).take(7) =~= "file://"@);
}

proof fn lemma_escape_plain(path: Seq<char>)
    requires
        forall|i: int| 0 <= i < path.len() ==> needs_no_escape(#[trigger] path[i]),
    ensures
        escaped(encode_utf8(path)) == path,
    decreases path.len(),
{
    assert(vstd::utf8::is_ascii_chars(path)) by {
        assert forall|i: int| 0 <= i < path.len() implies '\0' <= #[trigger] path[i] <= '\u{7f}' by {}
    }
    vstd::utf8::is_ascii_chars_encode_utf8(path);
    let bytes = encode_utf8(path);
    if path.len() > 0 {
        let rest = path.drop_first();
        assert(vstd::utf8::is_ascii_chars(rest)) by {
            assert forall|i: int| 0 <= i < rest.len() implies '\0' <= #[trigger] rest[i]
                <= '\u{7f}' by {
                assert(needs_no_escape(path[i + 1]));
            }
        }
        vstd::utf8::is_ascii_chars_encode_utf8(rest);
        assert(bytes.drop_first() =~= encode_utf8(rest));
        assert forall|i: int| 0 <= i < rest.len() implies needs_no_escape(#[trigger] rest[i]) by {
            assert(needs_no_escape(path[i + 1]));
        }
        lemma_escape_plain(rest);
        assert(bytes[0] == path[0] as u8);
        assert(needs_no_escape(path[0]));
        assert(escape(bytes[0]) =~= seq![path[0]]);
        assert(seq![path[0]] + rest =~= path);
    } else {
        assert(escaped(bytes) =~= path);
    }
}

/// A path of plain characters is its own URI behind the scheme, and the scheme says
/// nothing of the path.
pub proof fn lemma_plain_paths_stay(path: Seq<char>)
    requires
        forall|i: int| 0 <= i < path.len() ==> needs_no_escape(#[trigger] path[i]),
    ensures
        uri_of(path) == "file://"@ + path,
{
    lemma_escape_plain(path);
}

/// What is not behind the scheme is read as it would be behind it.
pub proof fn lemma_scheme_is_optional(rest: Seq<char>)
    requires
        rest.len() < 7 || rest.take(7) != "file://"@,
    ensures
        path_of("file://"@ + rest) == path_of(rest),
        decodable("file://"@ + rest) == decodable(rest),
{
    reveal_strlit("file://");
    assert("file://"@.len() == 7);
    assert(("file://"@ + rest).take(7) =~= "file://"@);
    assert(("file://"@ + rest).skip(7) =~= rest);
}

/// A percent sign, a plus and a digit stand for the value of the digit.
pub proof fn lemma_signed_escapes(d: u8, capital: bool, rest: Seq<u8>)
    requires
        d < 16,
    ensures
        unescaped(seq![0x25u8, 0x2bu8, digit_of(d as int, capital) as u8] + rest) == seq![d]
            + unescaped(rest),
{
    let s = seq![0x25u8, 0x2bu8, digit_of(d as int, capital) as u8] + rest;
    assert(s.skip(3) =~= rest);
    assert(hex_value(digit_of(d as int, capital) as u8) == Some(d));
}

/// A percent sign in front of a character that is no digit stands for itself.
pub proof fn lemma_lone_percent_stays(a: u8, b: u8, rest: Seq<u8>)
    requires
        !(0x30 <= b <= 0x39 || 0x41 <= b <= 0x46 || 0x61 <= b <= 0x66),
    ensures
        unescaped(seq![0x25u8, a, b] + rest) == seq![0x25u8] + unescaped(seq![a, b] + rest),
        unescaped(seq![0x25u8, a]) == seq![0x25u8] + unescaped(seq![a]),
        unescaped(seq![0x25u8]) == seq![0x25u8],
{
    let s = seq![0x25u8, a, b] + rest;
    assert(s[2] == b);
    assert(s.drop_first() =~= seq![a, b] + rest);
    assert(seq![0x25u8, a].drop_first() =~= seq![a]);
    assert(seq![0x25u8].drop_first() =~= Seq::empty());
    reveal_with_fuel(unescaped, 2);
    assert(unescaped(seq![0x25u8]) =~= seq![0x25u8]);
}

/// A percent sign whose second follower is no ASCII character cannot be decoded.
pub proof fn lemma_split_characters_refused(a: Seq<char>, x: char, y: char, b: Seq<char>)
    requires
        x <= '\u{7f}',
        y > '\u{7f}',
    ensures
        !decodable("file://"@ + (a + seq!['%', x, y] + b)),
{
    let rest = a + seq!['%', x, y] + b;
    let uri = "file://"@ + rest;
    reveal_strlit("file://");
    assert(uri.take(7) =~= "file://"@);
    assert(without_scheme(uri) =~= rest);
    let head = seq!['%', x];
    let tail = seq![y] + b;
    lemma_encode_concat(a, head);
    lemma_encode_concat(a + head, tail);
    assert(rest =~= a + head + tail);
    vstd::utf8::is_ascii_chars_encode_utf8(head);
    let s = encode_utf8(rest);
    let i = encode_utf8(a).len() as int;
    assert(encode_utf8(head)[0] == 0x25);
    assert(s[i] == 0x25);
    assert(tail.drop_first() =~= b);
    assert(tail[0] == y);
    let code = vstd::utf8::encode_scalar(y as u32);
    assert(encode_utf8(tail) == code + encode_utf8(b));
    assert(code.len() >= 2);
    assert(s[i + 3] == code[1]);
    vstd::utf8::encode_utf8_valid_utf8(rest);
    assert(is_continuation_byte(code[1])) by {
        vstd::utf8::encode_utf8_valid_utf8(seq![y]);
        vstd::utf8::encode_utf8_first_scalar(seq![y]);
    }
    vstd::utf8::is_char_boundary_iff_not_is_continuation_byte(s, i + 3);
}

} // verus!
