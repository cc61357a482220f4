//! Text edits out of the JSON that a server sends.
//!
//! A struct may come as an object, whose members are read in the order of their
//! names and of which unknown ones are passed over, or as an array of its fields
//! in the order of their declaration. What does not fit is refused with the
//! message that serde gives for a derived struct.

use vstd::prelude::*;

use crate::apply::{edit_views, Position, Range, TextEdit, TextEditView};
use crate::json::{as_array, show_json, views, Json, JsonView, Num};
use crate::text::{debug_text, decimal, decimal_text, owned, str_debug};

verus! {

// ---------------------------------------------------------------------------
// Messages
// ---------------------------------------------------------------------------

/// What kind of value stands there, for a message.
pub open spec fn kind_text(j: JsonView) -> Seq<char> {
    match j {
        JsonView::Null => "null"@,
        JsonView::Bool(b) => if b {
            "boolean `true`"@
        } else {
            "boolean `false`"@
        },
        JsonView::Num(Num::Other(_)) => "floating point `"@ + crate::json::json_text(j) + "`"@,
        JsonView::Num(_) => "integer `"@ + crate::json::json_text(j) + "`"@,
        JsonView::Text(s) => "string "@ + str_debug(s),
        JsonView::Array(_) => "sequence"@,
        JsonView::Object(_) => "map"@,
    }
}

/// The refusal of a value of another kind.
pub open spec fn wrong_type(j: JsonView, expected: Seq<char>) -> Seq<char> {
    "invalid type: "@ + kind_text(j) + ", expected "@ + expected
}

/// The refusal of a value out of range.
pub open spec fn wrong_value(j: JsonView, expected: Seq<char>) -> Seq<char> {
    "invalid value: "@ + kind_text(j) + ", expected "@ + expected
}

/// The refusal of an array of the wrong length.
pub open spec fn wrong_length(n: nat, expected: Seq<char>) -> Seq<char> {
    "invalid length "@ + decimal(n) + ", expected "@ + expected
}

/// The refusal of an object that lacks a member.
pub open spec fn missing_field(name: Seq<char>) -> Seq<char> {
    "missing field `"@ + name + "`"@
}

fn kind(j: &Json) -> (r: String)
    ensures
        r@ == kind_text(j@),
{
    match j {
        Json::Null => owned("null"),
        Json::Bool(b) => if *b {
            owned("boolean `true`")
        } else {
            owned("boolean `false`")
        },
        Json::Num(_) => {
            let whole: bool = j.as_u64().is_some() || j.as_i64().is_some();
            let mut out = if whole {
                owned("integer `")
            } else {
                owned("floating point `")
            };
            let shown = show_json(j);
            out.append(shown.as_str());
            out.append("`");
            out
        },
        Json::Text(s) => {
            let mut out = owned("string ");
            let shown = debug_text(s.as_str());
            out.append(shown.as_str());
            out
        },
        Json::Array(_) => owned("sequence"),
        Json::Object(_) => owned("map"),
    }
}

pub(crate) fn wrong_type_text(j: &Json, expected: &str) -> (r: String)
    ensures
        r@ == wrong_type(j@, expected@),
{
    let mut out = owned("invalid type: ");
    let what = kind(j);
    out.append(what.as_str());
    out.append(", expected ");
    out.append(expected);
    out
}

fn wrong_value_text(j: &Json, expected: &str) -> (r: String)
    ensures
        r@ == wrong_value(j@, expected@),
{
    let mut out = owned("invalid value: ");
    let what = kind(j);
    out.append(what.as_str());
    out.append(", expected ");
    out.append(expected);
    out
}

fn wrong_length_text(n: usize, expected: &str) -> (r: String)
    ensures
        r@ == wrong_length(n as nat, expected@),
{
    let mut out = owned("invalid length ");
    let shown = decimal_text(n as u64);
    out.append(shown.as_str());
    out.append(", expected ");
    out.append(expected);
    out
}

fn too_short_text(n: usize, name: &str) -> (r: String)
    ensures
        r@ == wrong_length(n as nat, name@ + " with 2 elements"@),
{
    let mut expected = owned(name);
    expected.append(" with 2 elements");
    wrong_length_text(n, expected.as_str())
}

fn missing_field_text(name: &str) -> (r: String)
    ensures
        r@ == missing_field(name@),
{
    let mut out = owned("missing field `");
    out.append(name);
    out.append("`");
    out
}

// ---------------------------------------------------------------------------
// Values
// ---------------------------------------------------------------------------

/// A line or column number.
pub open spec fn index_in(j: JsonView) -> Result<usize, Seq<char>> {
    match j {
        JsonView::Num(Num::Unsigned(u)) => if u <= usize::MAX {
            Ok(u as usize)
        } else {
            Err(wrong_value(j, "usize"@))
        },
        JsonView::Num(Num::Negative(_)) => Err(wrong_value(j, "usize"@)),
        _ => Err(wrong_type(j, "usize"@)),
    }
}

/// A string.
pub open spec fn text_value(j: JsonView) -> Result<Seq<char>, Seq<char>> {
    match j {
        JsonView::Text(s) => Ok(s),
        _ => Err(wrong_type(j, "a string"@)),
    }
}

/// The member of that name, read, where there is one.
pub open spec fn member_read<T>(
    j: JsonView,
    name: Seq<char>,
    read: spec_fn(JsonView) -> Result<T, Seq<char>>,
) -> Result<Option<T>, Seq<char>> {
    match crate::json::get(j, name) {
        Some(v) => match read(v) {
            Ok(x) => Ok(Some(x)),
            Err(e) => Err(e),
        },
        None => Ok(None),
    }
}

/// A struct of two fields, `first` declared before `second` and named behind it.
pub open spec fn two_fields<A, B>(
    j: JsonView,
    name: Seq<char>,
    first: Seq<char>,
    read_first: spec_fn(JsonView) -> Result<A, Seq<char>>,
    second: Seq<char>,
    read_second: spec_fn(JsonView) -> Result<B, Seq<char>>,
) -> Result<(A, B), Seq<char>> {
    match j {
        JsonView::Array(items) => if items.len() == 0 {
            Err(wrong_length(0, name + " with 2 elements"@))
        } else {
            match read_first(items[0]) {
                Err(e) => Err(e),
                Ok(a) => if items.len() == 1 {
                    Err(wrong_length(1, name + " with 2 elements"@))
                } else {
                    match read_second(items[1]) {
                        Err(e) => Err(e),
                        Ok(b) => if items.len() > 2 {
                            Err(wrong_length(items.len(), "fewer elements in array"@))
                        } else {
                            Ok((a, b))
                        },
                    }
                },
            }
        },
        JsonView::Object(_) => match member_read(j, second, read_second) {
            Err(e) => Err(e),
            Ok(b) => match member_read(j, first, read_first) {
                Err(e) => Err(e),
                Ok(a) => match (a, b) {
                    (None, _) => Err(missing_field(first)),
                    (Some(_), None) => Err(missing_field(second)),
                    (Some(a), Some(b)) => Ok((a, b)),
                },
            },
        },
        _ => Err(wrong_type(j, name)),
    }
}

/// A position.
pub open spec fn position_in(j: JsonView) -> Result<Position, Seq<char>> {
    match two_fields(
        j,
        "struct Position"@,
        "line"@,
        |v: JsonView| index_in(v),
        "character"@,
        |v: JsonView| index_in(v),
    ) {
        Ok((line, character)) => Ok(Position { line, character }),
        Err(e) => Err(e),
    }
}

/// A range.
pub open spec fn range_in(j: JsonView) -> Result<Range, Seq<char>> {
    match two_fields(
        j,
        "struct Range"@,
        "start"@,
        |v: JsonView| position_in(v),
        "end"@,
        |v: JsonView| position_in(v),
    ) {
        Ok((start, end)) => Ok(Range { start, end }),
        Err(e) => Err(e),
    }
}

/// A text edit.
pub open spec fn edit_in(j: JsonView) -> Result<TextEditView, Seq<char>> {
    match two_fields(
        j,
        "struct TextEdit"@,
        "range"@,
        |v: JsonView| range_in(v),
        "newText"@,
        |v: JsonView| text_value(v),
    ) {
        Ok((range, new_text)) => Ok(TextEditView { range, new_text }),
        Err(e) => Err(e),
    }
}

/// Text edits in order; the first that is refused decides.
pub open spec fn edits_from(items: Seq<JsonView>) -> Result<Seq<TextEditView>, Seq<char>>
    decreases items.len(),
{
    if items.len() == 0 {
        Ok(Seq::empty())
    } else {
        match edits_from(items.drop_last()) {
            Err(e) => Err(e),
            Ok(done) => match edit_in(items.last()) {
                Err(e) => Err(e),
                Ok(edit) => Ok(done.push(edit)),
            },
        }
    }
}

/// A list of text edits.
pub open spec fn edits_in(j: JsonView) -> Result<Seq<TextEditView>, Seq<char>> {
    match as_array(j) {
        Some(items) => edits_from(items),
        None => Err(wrong_type(j, "a sequence"@)),
    }
}

/// Whether a result says what the specification says.
pub open spec fn agrees<T>(r: Result<T, String>, s: Result<T, Seq<char>>) -> bool {
    match (r, s) {
        (Ok(a), Ok(b)) => a == b,
        (Err(e), Err(f)) => e@ == f,
        _ => false,
    }
}

fn read_index(j: &Json) -> (r: Result<usize, String>)
    ensures
        agrees(r, index_in(j@)),
{
    match j.as_u64() {
        Some(u) => if u <= usize::MAX as u64 {
            Ok(u as usize)
        } else {
            Err(wrong_value_text(j, "usize"))
        },
        None => match j.as_i64() {
            Some(_) => Err(wrong_value_text(j, "usize")),
            None => Err(wrong_type_text(j, "usize")),
        },
    }
}

fn read_text(j: &Json) -> (r: Result<String, String>)
    ensures
        match (r, text_value(j@)) {
            (Ok(a), Ok(b)) => a@ == b,
            (Err(e), Err(f)) => e@ == f,
            _ => false,
        },
{
    match j {
        Json::Text(s) => Ok(owned(s.as_str())),
        _ => Err(wrong_type_text(j, "a string")),
    }
}

fn read_position(j: &Json) -> (r: Result<Position, String>)
    ensures
        agrees(r, position_in(j@)),
{
    match j {
        Json::Array(items) => {
            proof {
                crate::json::lemma_array_view(*items);
            }
            if items.len() == 0 {
                return Err(too_short_text(0, "struct Position"));
            }
            assert(views(items@)[0] == items@[0]@);
            let line = match read_index(&items[0]) {
                Ok(x) => x,
                Err(e) => return Err(e),
            };
            if items.len() == 1 {
                return Err(too_short_text(1, "struct Position"));
            }
            assert(views(items@)[1] == items@[1]@);
            let character = match read_index(&items[1]) {
                Ok(x) => x,
                Err(e) => return Err(e),
            };
            if items.len() > 2 {
                return Err(wrong_length_text(items.len(), "fewer elements in array"));
            }
            Ok(Position { line, character })
        },
        Json::Object(_) => {
            let given_character = match j.get("character") {
                Some(v) => match read_index(v) {
                    Ok(x) => Some(x),
                    Err(e) => return Err(e),
                },
                None => None,
            };
            let given_line = match j.get("line") {
                Some(v) => match read_index(v) {
                    Ok(x) => Some(x),
                    Err(e) => return Err(e),
                },
                None => None,
            };
            match (given_line, given_character) {
                (None, _) => Err(missing_field_text("line")),
                (Some(_), None) => Err(missing_field_text("character")),
                (Some(line), Some(character)) => Ok(Position { line, character }),
            }
        },
        _ => Err(wrong_type_text(j, "struct Position")),
    }
}

fn read_range(j: &Json) -> (r: Result<Range, String>)
    ensures
        agrees(r, range_in(j@)),
{
    match j {
        Json::Array(items) => {
            proof {
                crate::json::lemma_array_view(*items);
            }
            if items.len() == 0 {
                return Err(too_short_text(0, "struct Range"));
            }
            assert(views(items@)[0] == items@[0]@);
            let start = match read_position(&items[0]) {
                Ok(x) => x,
                Err(e) => return Err(e),
            };
            if items.len() == 1 {
                return Err(too_short_text(1, "struct Range"));
            }
            assert(views(items@)[1] == items@[1]@);
            let end = match read_position(&items[1]) {
                Ok(x) => x,
                Err(e) => return Err(e),
            };
            if items.len() > 2 {
                return Err(wrong_length_text(items.len(), "fewer elements in array"));
            }
            Ok(Range { start, end })
        },
        Json::Object(_) => {
            let given_end = match j.get("end") {
                Some(v) => match read_position(v) {
                    Ok(x) => Some(x),
                    Err(e) => return Err(e),
                },
                None => None,
            };
            let given_start = match j.get("start") {
                Some(v) => match read_position(v) {
                    Ok(x) => Some(x),
                    Err(e) => return Err(e),
                },
                None => None,
            };
            match (given_start, given_end) {
                (None, _) => Err(missing_field_text("start")),
                (Some(_), None) => Err(missing_field_text("end")),
                (Some(start), Some(end)) => Ok(Range { start, end }),
            }
        },
        _ => Err(wrong_type_text(j, "struct Range")),
    }
}

fn read_edit(j: &Json) -> (r: Result<TextEdit, String>)
    ensures
        match (r, edit_in(j@)) {
            (Ok(a), Ok(b)) => a@ == b,
            (Err(e), Err(f)) => e@ == f,
            _ => false,
        },
{
    match j {
        Json::Array(items) => {
            proof {
                crate::json::lemma_array_view(*items);
            }
            if items.len() == 0 {
                return Err(too_short_text(0, "struct TextEdit"));
            }
            assert(views(items@)[0] == items@[0]@);
            let range = match read_range(&items[0]) {
                Ok(x) => x,
                Err(e) => return Err(e),
            };
            if items.len() == 1 {
                return Err(too_short_text(1, "struct TextEdit"));
            }
            assert(views(items@)[1] == items@[1]@);
            let new_text = match read_text(&items[1]) {
                Ok(x) => x,
                Err(e) => return Err(e),
            };
            if items.len() > 2 {
                return Err(wrong_length_text(items.len(), "fewer elements in array"));
            }
            Ok(TextEdit { range, new_text })
        },
        Json::Object(_) => {
            let given_new_text = match j.get("newText") {
                Some(v) => match read_text(v) {
                    Ok(x) => Some(x),
                    Err(e) => return Err(e),
                },
                None => None,
            };
            let given_range = match j.get("range") {
                Some(v) => match read_range(v) {
                    Ok(x) => Some(x),
                    Err(e) => return Err(e),
                },
                None => None,
            };
            match (given_range, given_new_text) {
                (None, _) => Err(missing_field_text("range")),
                (Some(_), None) => Err(missing_field_text("newText")),
                (Some(range), Some(new_text)) => Ok(TextEdit { range, new_text }),
            }
        },
        _ => Err(wrong_type_text(j, "struct TextEdit")),
    }
}

/// Reads a list of text edits.
pub fn read_edits(j: &Json) -> (r: Result<Vec<TextEdit>, String>)
    ensures
        match (r, edits_in(j@)) {
            (Ok(a), Ok(b)) => edit_views(a@) == b,
            (Err(e), Err(f)) => e@ == f,
            _ => false,
        },
{
    let items = match j.as_array() {
        Some(items) => items,
        None => return Err(wrong_type_text(j, "a sequence")),
    };
    let ghost all = views(items@);
    let mut out: Vec<TextEdit> = Vec::new();
    let mut i: usize = 0;
    assert(edit_views(out@) =~= Seq::empty());
    while i < items.len()
        invariant
            i <= items@.len(),
            all == views(items@),
            as_array(j@) == Some(all),
            edits_from(all.take(i as int)) == Ok::<Seq<TextEditView>, Seq<char>>(edit_views(out@)),
        decreases items@.len() - i,
    {
        proof {
            let part = all.take(i + 1);
            assert(part.last() == items@[i as int]@);
            assert(part.drop_last() =~= all.take(i as int));
        }
        match read_edit(&items[i]) {
            Ok(e) => {
                let ghost before = out@;
                out.push(e);
                assert(edit_views(out@) =~= edit_views(before).push(e@));
            },
            Err(e) => {
                proof {
                    lemma_edits_refused(all, i + 1);
                }
                return Err(e);
            },
        }
        i += 1;
    }
    assert(all.take(i as int) =~= all);
    Ok(out)
}

/// A refusal among the first edits is the refusal of all.
proof fn lemma_edits_refused(items: Seq<JsonView>, k: int)
    requires
        0 <= k <= items.len(),
        edits_from(items.take(k)) is Err,
    ensures
        edits_from(items) == edits_from(items.take(k)),
    decreases items.len(),
{
    if k == items.len() {
        assert(items.take(k) =~= items);
    } else {
        assert(items.drop_last().take(k) =~= items.take(k));
        lemma_edits_refused(items.drop_last(), k);
    }
}

// ---------------------------------------------------------------------------
// What holds of edits that are read
// ---------------------------------------------------------------------------

/// Whether a value is a place: a line and a column.
pub open spec fn is_place(j: JsonView, line: u64, character: u64) -> bool {
    &&& j is Object
    &&& crate::json::get(j, "line"@) == Some(JsonView::Num(Num::Unsigned(line)))
    &&& crate::json::get(j, "character"@) == Some(JsonView::Num(Num::Unsigned(character)))
}

/// An edit is read as it is written: where it starts, where it ends, and its text.
pub proof fn lemma_edit_read(
    j: JsonView,
    range: JsonView,
    start: JsonView,
    end: JsonView,
    from: (u64, u64),
    to: (u64, u64),
    text: Seq<char>,
)
    requires
        crate::json::get(j, "range"@) == Some(range),
        crate::json::get(j, "newText"@) == Some(JsonView::Text(text)),
        crate::json::get(range, "start"@) == Some(start),
        crate::json::get(range, "end"@) == Some(end),
        is_place(start, from.0, from.1),
        is_place(end, to.0, to.1),
        from.0 <= usize::MAX && from.1 <= usize::MAX && to.0 <= usize::MAX && to.1 <= usize::MAX,
    ensures
        match edit_in(j) {
            Ok(e) => {
                &&& e.range.start.line == from.0 && e.range.start.character == from.1
                &&& e.range.end.line == to.0 && e.range.end.character == to.1
                &&& e.new_text == text
            },
            Err(_) => false,
        },
{
    assert(position_in(start) is Ok && position_in(end) is Ok);
    assert(range_in(range) is Ok);
}

/// A list of edits is read whole and in order, or not at all: it is refused where one of
/// its items is no edit, and where it is no list.
pub proof fn lemma_edits_read(items: Seq<JsonView>)
    ensures
        edits_in(JsonView::Array(items)) is Ok <==> forall|k: int|
            0 <= k < items.len() ==> edit_in(#[trigger] items[k]) is Ok,
        match edits_in(JsonView::Array(items)) {
            Ok(edits) => edits.len() == items.len() && forall|k: int|
                0 <= k < items.len() ==> edit_in(items[k]) == Ok::<TextEditView, Seq<char>>(
                    #[trigger] edits[k],
                ),
            Err(_) => true,
        },
        edits_in(JsonView::Null) is Err,
    decreases items.len(),
{
    if items.len() > 0 {
        let less = items.drop_last();
        lemma_edits_read(less);
        assert(forall|k: int| 0 <= k < less.len() ==> less[k] == items[k]);
        assert(items.last() == items[items.len() - 1]);
        if edits_in(JsonView::Array(items)) is Ok {
            assert forall|k: int| 0 <= k < items.len() implies edit_in(
                #[trigger] items[k],
            ) is Ok by {
                if k < less.len() {
                    assert(less[k] == items[k]);
                }
            }
        } else if forall|k: int| 0 <= k < items.len() ==> edit_in(#[trigger] items[k]) is Ok {
            assert forall|k: int| 0 <= k < less.len() implies edit_in(#[trigger] less[k]) is Ok by {
                assert(less[k] == items[k]);
            }
        }
    }
}

/// A place without a line or a column, or with a negative one, is no place, and an edit
/// without a range or a text is no edit.
pub proof fn lemma_incomplete_edits_refused(m: Map<Seq<char>, JsonView>, n: i64)
    requires
        n < 0,
    ensures
        !m.contains_key("line"@) || !m.contains_key("character"@) ==> position_in(
            JsonView::Object(m),
        ) is Err,
        m.contains_key("line"@) && m["line"@] == JsonView::Num(Num::Negative(n)) ==> position_in(
            JsonView::Object(m),
        ) is Err,
        m.contains_key("character"@) && m["character"@] == JsonView::Num(Num::Negative(n))
            ==> position_in(JsonView::Object(m)) is Err,
        !m.contains_key("start"@) || !m.contains_key("end"@) ==> range_in(
            JsonView::Object(m),
        ) is Err,
        !m.contains_key("range"@) || !m.contains_key("newText"@) ==> edit_in(
            JsonView::Object(m),
        ) is Err,
{
}

} // verus!
