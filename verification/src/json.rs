//! JSON values as plain data, and the way between them and JSON text.
//!
//! The library reads and builds [`Json`]. Text is parsed and written by
//! serde_json, whose values are taken apart and put together here, one layer
//! at a time.

use vstd::prelude::*;
use vstd::utf8::encode_utf8;

use crate::text::{owned, same_text};

verus! {

/// A JSON number: a plain integer, or any number as serde_json holds it.
#[derive(Debug)]
pub enum Num {
    Unsigned(u64),
    Negative(i64),
    Other(serde_json::Number),
}

/// A JSON value. Of several members of one object with the same name the last counts.
#[derive(Debug)]
pub enum Json {
    Null,
    Bool(bool),
    Num(Num),
    Text(String),
    Array(Vec<Json>),
    Object(Vec<(String, Json)>),
}

/// What a JSON value means: an object is a map, whatever the order of its members.
pub enum JsonView {
    Null,
    Bool(bool),
    Num(Num),
    Text(Seq<char>),
    Array(Seq<JsonView>),
    Object(Map<Seq<char>, JsonView>),
}

/// A number in the one form that stands for it: `Negative` holds only what is
/// below zero, and serde_json says what is in a number of its own.
pub open spec fn canonical(n: Num) -> Num {
    match n {
        Num::Negative(i) => if i < 0 {
            n
        } else {
            Num::Unsigned(i as u64)
        },
        Num::Other(x) => number_json(x),
        Num::Unsigned(_) => n,
    }
}

/// The map that a sequence of members stands for.
pub open spec fn members(entries: Seq<(Seq<char>, JsonView)>) -> Map<Seq<char>, JsonView>
    decreases entries.len(),
{
    if entries.len() == 0 {
        Map::empty()
    } else {
        members(entries.drop_last()).insert(entries.last().0, entries.last().1)
    }
}

/// What a value means.
pub open spec fn json_view(j: Json) -> JsonView
    decreases j, 0nat,
{
    match j {
        Json::Null => JsonView::Null,
        Json::Bool(b) => JsonView::Bool(b),
        Json::Num(n) => JsonView::Num(canonical(n)),
        Json::Text(s) => JsonView::Text(s@),
        Json::Array(items) => JsonView::Array(
            Seq::new(
                items@.len(),
                |i: int|
                    if 0 <= i < items@.len() {
                        json_view(items@[i])
                    } else {
                        JsonView::Null
                    },
            ),
        ),
        Json::Object(entries) => JsonView::Object(first_members(entries@, entries@.len())),
    }
}

/// The map that the first `n` members of an object stand for.
pub open spec fn first_members(entries: Seq<(String, Json)>, n: nat) -> Map<Seq<char>, JsonView>
    decreases entries, n,
{
    if 0 < n <= entries.len() {
        first_members(entries, (n - 1) as nat).insert(
            entries[n - 1].0@,
            json_view(entries[n - 1].1),
        )
    } else {
        Map::empty()
    }
}

impl View for Json {
    type V = JsonView;

    open spec fn view(&self) -> JsonView {
        json_view(*self)
    }
}

/// The views of a sequence of values.
pub open spec fn views(items: Seq<Json>) -> Seq<JsonView> {
    items.map_values(|j: Json| j@)
}

/// The views of a sequence of members.
pub open spec fn entry_views(entries: Seq<(String, Json)>) -> Seq<(Seq<char>, JsonView)> {
    entries.map_values(|e: (String, Json)| (e.0@, e.1@))
}

/// An array's view is made of its items' views.
pub proof fn lemma_array_view(items: Vec<Json>)
    ensures
        Json::Array(items)@ == JsonView::Array(views(items@)),
{
    assert((Json::Array(items)@)->Array_0 =~= views(items@));
}

/// An object's view is the map of its members' views.
pub proof fn lemma_object_view(entries: Vec<(String, Json)>)
    ensures
        Json::Object(entries)@ == JsonView::Object(members(entry_views(entries@))),
{
    lemma_first_members(entries@, entries@.len());
    assert(entry_views(entries@).take(entries@.len() as int) =~= entry_views(entries@));
}

proof fn lemma_first_members(entries: Seq<(String, Json)>, n: nat)
    requires
        n <= entries.len(),
    ensures
        first_members(entries, n) == members(entry_views(entries).take(n as int)),
    decreases n,
{
    if n > 0 {
        lemma_first_members(entries, (n - 1) as nat);
        let part = entry_views(entries).take(n as int);
        assert(part.drop_last() =~= entry_views(entries).take(n - 1));
    }
}

/// An item is smaller than its array.
proof fn lemma_item_smaller(items: Vec<Json>, i: int)
    requires
        0 <= i < items@.len(),
    ensures
        decreases_to!(Json::Array(items) => items@[i]),
{
    let j = Json::Array(items);
    assert(decreases_to!(j => j->Array_0));
    assert(decreases_to!(j->Array_0 => (j->Array_0)@[i]));
}

/// A member's value is smaller than its object.
proof fn lemma_entry_smaller(entries: Vec<(String, Json)>, i: int)
    requires
        0 <= i < entries@.len(),
    ensures
        decreases_to!(Json::Object(entries) => entries@[i].1),
{
    let j = Json::Object(entries);
    let e = entries@[i];
    assert(decreases_to!(j => j->Object_0));
    assert(decreases_to!(j->Object_0 => (j->Object_0)@[i]));
    assert(decreases_to!(e => e.1));
}

/// Whether no two members have the same name.
pub open spec fn distinct_names(entries: Seq<(Seq<char>, JsonView)>) -> bool {
    forall|i: int, j: int|
        #![trigger entries[i], entries[j]]
        0 <= i < j < entries.len() ==> entries[i].0 != entries[j].0
}

/// The map of members with distinct names holds each of them.
proof fn lemma_members_hold(entries: Seq<(Seq<char>, JsonView)>, i: int)
    requires
        distinct_names(entries),
        0 <= i < entries.len(),
    ensures
        members(entries).contains_key(entries[i].0),
        members(entries)[entries[i].0] == entries[i].1,
    decreases entries.len(),
{
    if i < entries.len() - 1 {
        let shorter = entries.drop_last();
        assert(distinct_names(shorter));
        assert(shorter[i] == entries[i]);
        lemma_members_hold(shorter, i);
        assert(entries[i].0 != entries[entries.len() - 1].0);
    }
}

/// The map of members of which one has another value.
proof fn lemma_members_update(entries: Seq<(Seq<char>, JsonView)>, p: int, v: JsonView)
    requires
        distinct_names(entries),
        0 <= p < entries.len(),
    ensures
        distinct_names(entries.update(p, (entries[p].0, v))),
        members(entries.update(p, (entries[p].0, v))) == members(entries).insert(entries[p].0, v),
    decreases entries.len(),
{
    let changed = entries.update(p, (entries[p].0, v));
    assert forall|i: int, j: int|
        #![trigger changed[i], changed[j]]
        0 <= i < j < changed.len() implies changed[i].0 != changed[j].0 by {
        assert(entries[i].0 != entries[j].0);
    }
    let shorter = entries.drop_last();
    if p == entries.len() - 1 {
        assert(changed.drop_last() =~= shorter);
        assert(members(changed) =~= members(entries).insert(entries[p].0, v));
    } else {
        assert(shorter[p] == entries[p]);
        assert(distinct_names(shorter));
        lemma_members_update(shorter, p, v);
        assert(changed.drop_last() =~= shorter.update(p, (shorter[p].0, v)));
        assert(entries[p].0 != entries[entries.len() - 1].0);
        assert(members(changed) =~= members(entries).insert(entries[p].0, v));
    }
}

/// A map of members has finitely many names.
proof fn lemma_members_finite(entries: Seq<(Seq<char>, JsonView)>)
    ensures
        members(entries).dom().finite(),
    decreases entries.len(),
{
    if entries.len() > 0 {
        lemma_members_finite(entries.drop_last());
    }
}

// ---------------------------------------------------------------------------
// Reading a value
// ---------------------------------------------------------------------------

/// The member of that name, where the value is an object that has one.
pub open spec fn get(j: JsonView, key: Seq<char>) -> Option<JsonView> {
    match j {
        JsonView::Object(m) => if m.contains_key(key) {
            Some(m[key])
        } else {
            None
        },
        _ => None,
    }
}

/// The member of that name, null where there is none.
pub open spec fn at(j: JsonView, key: Seq<char>) -> JsonView {
    match get(j, key) {
        Some(v) => v,
        None => JsonView::Null,
    }
}

/// The text of a string value.
pub open spec fn as_str(j: JsonView) -> Option<Seq<char>> {
    match j {
        JsonView::Text(s) => Some(s),
        _ => None,
    }
}

/// The items of an array.
pub open spec fn as_array(j: JsonView) -> Option<Seq<JsonView>> {
    match j {
        JsonView::Array(s) => Some(s),
        _ => None,
    }
}

/// The number, where it is an integer from zero to `u64::MAX`.
pub open spec fn as_u64(j: JsonView) -> Option<u64> {
    match j {
        JsonView::Num(Num::Unsigned(u)) => Some(u),
        _ => None,
    }
}

/// The number, where it is an integer from `i64::MIN` to `i64::MAX`.
pub open spec fn as_i64(j: JsonView) -> Option<i64> {
    match j {
        JsonView::Num(Num::Unsigned(u)) => if u <= i64::MAX {
            Some(u as i64)
        } else {
            None
        },
        JsonView::Num(Num::Negative(i)) => Some(i),
        _ => None,
    }
}

/// The view of a value that may be missing: null where it is.
pub open spec fn opt_view(j: Option<&Json>) -> JsonView {
    match j {
        Some(v) => v@,
        None => JsonView::Null,
    }
}

/// Finds the last member of that name.
fn find_member(entries: &Vec<(String, Json)>, key: &str) -> (r: Option<usize>)
    ensures
        match r {
            Some(i) => i < entries@.len() && members(entry_views(entries@)).contains_key(key@)
                && members(entry_views(entries@))[key@] == entries@[i as int].1@,
            None => !members(entry_views(entries@)).contains_key(key@),
        },
{
    let ghost all = entry_views(entries@);
    let mut n: usize = entries.len();
    assert(all.take(n as int) =~= all);
    while n > 0
        invariant
            n <= entries@.len(),
            all == entry_views(entries@),
            members(all).contains_key(key@) == members(all.take(n as int)).contains_key(key@),
            members(all).contains_key(key@) ==> members(all)[key@] == members(
                all.take(n as int),
            )[key@],
        decreases n,
    {
        let ghost part = all.take(n as int);
        assert(part.drop_last() =~= all.take(n - 1));
        assert(part.last() == all[n - 1]);
        if same_text(entries[n - 1].0.as_str(), key) {
            return Some(n - 1);
        }
        n -= 1;
    }
    None
}

impl Json {
    /// The member of that name, where the value is an object that has one.
    pub fn get(&self, key: &str) -> (r: Option<&Json>)
        ensures
            match r {
                Some(v) => get(self@, key@) == Some(v@),
                None => get(self@, key@) is None,
            },
            opt_view(r) == at(self@, key@),
    {
        match self {
            Json::Object(entries) => {
                proof {
                    lemma_object_view(*entries);
                }
                match find_member(entries, key) {
                    Some(i) => Some(&entries[i].1),
                    None => None,
                }
            },
            _ => None,
        }
    }

    /// The text of a string value.
    pub fn as_str(&self) -> (r: Option<&str>)
        ensures
            match r {
                Some(s) => as_str(self@) == Some(s@),
                None => as_str(self@) is None,
            },
    {
        match self {
            Json::Text(s) => Some(s.as_str()),
            _ => None,
        }
    }

    /// The items of an array.
    pub fn as_array(&self) -> (r: Option<&Vec<Json>>)
        ensures
            match r {
                Some(items) => as_array(self@) == Some(views(items@)),
                None => as_array(self@) is None,
            },
    {
        match self {
            Json::Array(items) => {
                proof {
                    lemma_array_view(*items);
                }
                Some(items)
            },
            _ => None,
        }
    }

    /// The number, where it is an integer from zero to `u64::MAX`.
    pub fn as_u64(&self) -> (r: Option<u64>)
        ensures
            r == as_u64(self@),
    {
        match self {
            Json::Num(Num::Unsigned(u)) => Some(*u),
            Json::Num(Num::Negative(i)) => if *i >= 0 {
                Some(*i as u64)
            } else {
                None
            },
            Json::Num(Num::Other(n)) => number_as_u64(n),
            _ => None,
        }
    }

    /// The number, where it is an integer from `i64::MIN` to `i64::MAX`.
    pub fn as_i64(&self) -> (r: Option<i64>)
        ensures
            r == as_i64(self@),
    {
        match self {
            Json::Num(Num::Unsigned(u)) => if *u <= i64::MAX as u64 {
                Some(*u as i64)
            } else {
                None
            },
            Json::Num(Num::Negative(i)) => Some(*i),
            Json::Num(Num::Other(n)) => number_as_i64(n),
            _ => None,
        }
    }

    /// Whether the value is null.
    pub fn is_null(&self) -> (r: bool)
        ensures
            r == (self@ == JsonView::Null),
    {
        match self {
            Json::Null => true,
            _ => false,
        }
    }

    /// A copy of the value.
    pub fn duplicate(&self) -> (r: Json)
        ensures
            r@ == self@,
        decreases self,
    {
        match self {
            Json::Null => Json::Null,
            Json::Bool(b) => Json::Bool(*b),
            Json::Num(Num::Unsigned(u)) => Json::Num(Num::Unsigned(*u)),
            Json::Num(Num::Negative(i)) => Json::Num(Num::Negative(*i)),
            Json::Num(Num::Other(n)) => Json::Num(Num::Other(n.clone())),
            Json::Text(s) => Json::Text(owned(s.as_str())),
            Json::Array(items) => {
                let mut out: Vec<Json> = Vec::new();
                let mut i: usize = 0;
                while i < items.len()
                    invariant
                        i <= items@.len(),
                        self == Json::Array(*items),
                        views(out@) == views(items@).take(i as int),
                    decreases items@.len() - i,
                {
                    proof {
                        lemma_item_smaller(*items, i as int);
                    }
                    let copy = items[i].duplicate();
                    let ghost before = out@;
                    out.push(copy);
                    i += 1;
                    assert(views(out@) =~= views(before).push(copy@));
                    assert(views(out@) =~= views(items@).take(i as int));
                }
                proof {
                    assert(views(out@) =~= views(items@));
                    lemma_array_view(*items);
                    lemma_array_view(out);
                }
                Json::Array(out)
            },
            Json::Object(entries) => {
                let mut out: Vec<(String, Json)> = Vec::new();
                let mut i: usize = 0;
                while i < entries.len()
                    invariant
                        i <= entries@.len(),
                        self == Json::Object(*entries),
                        entry_views(out@) == entry_views(entries@).take(i as int),
                    decreases entries@.len() - i,
                {
                    let key = owned(entries[i].0.as_str());
                    proof {
                        lemma_entry_smaller(*entries, i as int);
                    }
                    let copy = entries[i].1.duplicate();
                    let ghost before = out@;
                    out.push((key, copy));
                    i += 1;
                    assert(entry_views(out@) =~= entry_views(before).push((key@, copy@)));
                    assert(entry_views(out@) =~= entry_views(entries@).take(i as int));
                }
                proof {
                    assert(entry_views(out@) =~= entry_views(entries@));
                    lemma_object_view(*entries);
                    lemma_object_view(out);
                }
                Json::Object(out)
            },
        }
    }
}

/// The member of that name of a value that may itself be missing.
pub(crate) fn member<'a>(j: Option<&'a Json>, key: &str) -> (r: Option<&'a Json>)
    ensures
        opt_view(r) == at(opt_view(j), key@),
{
    match j {
        Some(v) => v.get(key),
        None => None,
    }
}

/// The text of a value that may be missing.
pub(crate) fn text_in<'a>(j: Option<&'a Json>) -> (r: Option<&'a str>)
    ensures
        match r {
            Some(s) => as_str(opt_view(j)) == Some(s@),
            None => as_str(opt_view(j)) is None,
        },
{
    match j {
        Some(v) => v.as_str(),
        None => None,
    }
}

/// The unsigned number in a value that may be missing.
pub(crate) fn number_in(j: Option<&Json>) -> (r: Option<u64>)
    ensures
        r == as_u64(opt_view(j)),
{
    match j {
        Some(v) => v.as_u64(),
        None => None,
    }
}

/// A copy of a value that may be missing: null where it is.
pub(crate) fn copy_of(j: Option<&Json>) -> (r: Json)
    ensures
        r@ == opt_view(j),
{
    match j {
        Some(v) => v.duplicate(),
        None => Json::Null,
    }
}

// ---------------------------------------------------------------------------
// Building a value
// ---------------------------------------------------------------------------

/// An object under construction.
#[derive(Debug)]
pub struct Members {
    entries: Vec<(String, Json)>,
}

impl View for Members {
    type V = Map<Seq<char>, JsonView>;

    closed spec fn view(&self) -> Map<Seq<char>, JsonView> {
        members(entry_views(self.entries@))
    }
}

impl Members {
    /// No members yet.
    pub fn new() -> (r: Members)
        ensures
            r@ == Map::<Seq<char>, JsonView>::empty(),
    {
        let r = Members { entries: Vec::new() };
        assert(entry_views(r.entries@) =~= Seq::empty());
        r
    }

    /// Adds a member, in place of an earlier one of the same name.
    pub fn put(&mut self, key: &str, value: Json)
        ensures
            final(self)@ == old(self)@.insert(key@, value@),
    {
        let ghost before = entry_views(self.entries@);
        let ghost v = value@;
        self.entries.push((owned(key), value));
        proof {
            let all = entry_views(self.entries@);
            assert(all.drop_last() =~= before);
            assert(all.last() == (key@, v));
        }
    }

    /// The same members and one more, in place of an earlier one of the same name.
    pub fn with(self, key: &str, value: Json) -> (r: Members)
        ensures
            r@ == self@.insert(key@, value@),
    {
        let mut r = self;
        r.put(key, value);
        r
    }

    /// The member of that name, where there is one.
    pub fn find(&self, key: &str) -> (r: Option<&Json>)
        ensures
            match r {
                Some(v) => self@.contains_key(key@) && self@[key@] == v@,
                None => !self@.contains_key(key@),
            },
    {
        match find_member(&self.entries, key) {
            Some(i) => Some(&self.entries[i].1),
            None => None,
        }
    }

    /// The finished object.
    pub fn object(self) -> (r: Json)
        ensures
            r@ == JsonView::Object(self@),
    {
        proof {
            lemma_object_view(self.entries);
        }
        Json::Object(self.entries)
    }
}

/// A string value.
pub fn text(s: &str) -> (r: Json)
    ensures
        r@ == JsonView::Text(s@),
{
    Json::Text(owned(s))
}

/// An unsigned number.
pub fn unsigned(n: u64) -> (r: Json)
    ensures
        r@ == JsonView::Num(Num::Unsigned(n)),
{
    Json::Num(Num::Unsigned(n))
}

/// A signed number.
pub fn signed(n: i64) -> (r: Json)
    ensures
        r@ == JsonView::Num(canonical(Num::Negative(n))),
{
    Json::Num(Num::Negative(n))
}

/// An array.
pub fn array(items: Vec<Json>) -> (r: Json)
    ensures
        r@ == JsonView::Array(views(items@)),
{
    proof {
        lemma_array_view(items);
    }
    Json::Array(items)
}

// ---------------------------------------------------------------------------
// serde_json
// ---------------------------------------------------------------------------

/// `serde_json::Value`: one parsed JSON value.
#[verifier::external_type_specification]
#[verifier::external_body]
pub struct ExValue(serde_json::Value);

/// `serde_json::Number`: a JSON number.
#[verifier::external_type_specification]
#[verifier::external_body]
pub struct ExNumber(serde_json::Number);

/// `serde_json::Error`: why a text is no JSON.
#[verifier::external_type_specification]
#[verifier::external_body]
pub struct ExError(serde_json::Error);

/// The number that a `serde_json::Number` holds: an integer as such, anything
/// else as the number itself.
pub uninterp spec fn number_json(n: serde_json::Number) -> Num;

/// What a `serde_json::Value` holds, through all its layers.
pub uninterp spec fn value_json(v: serde_json::Value) -> JsonView;

/// The message that a `serde_json::Error` displays.
pub uninterp spec fn error_text(e: serde_json::Error) -> Seq<char>;

/// What `serde_json::from_slice` makes of a text: the value, or the message of its error.
pub uninterp spec fn json_parsed(bytes: Seq<u8>) -> Result<JsonView, Seq<char>>;

/// The compact text that `serde_json::to_vec` writes of a value.
pub uninterp spec fn json_bytes(j: JsonView) -> Seq<u8>;

/// The compact text that a value displays as.
pub uninterp spec fn json_text(j: JsonView) -> Seq<char>;

/// The indented text that `serde_json::to_string_pretty` writes of a value.
pub uninterp spec fn json_pretty(j: JsonView) -> Seq<char>;

/// The outermost layer of a `serde_json::Value`.
pub enum Shape {
    Null,
    Bool(bool),
    Num(serde_json::Number),
    Text(String),
    Array(Vec<serde_json::Value>),
    Object(Vec<(String, serde_json::Value)>),
}

/// What the values in an array hold.
pub open spec fn value_views(items: Seq<serde_json::Value>) -> Seq<JsonView> {
    items.map_values(|v: serde_json::Value| value_json(v))
}

/// What the members of an object hold.
pub open spec fn value_entries(entries: Seq<(String, serde_json::Value)>) -> Seq<
    (Seq<char>, JsonView),
> {
    entries.map_values(|e: (String, serde_json::Value)| (e.0@, value_json(e.1)))
}

/// What a value with that outermost layer holds.
pub open spec fn shape_json(s: Shape) -> JsonView {
    match s {
        Shape::Null => JsonView::Null,
        Shape::Bool(b) => JsonView::Bool(b),
        Shape::Num(n) => JsonView::Num(number_json(n)),
        Shape::Text(s) => JsonView::Text(s@),
        Shape::Array(items) => JsonView::Array(value_views(items@)),
        Shape::Object(entries) => JsonView::Object(members(value_entries(entries@))),
    }
}

/// A value that comes back from its own text: integers only, nested at most `depth` deep.
pub open spec fn storable(j: JsonView, depth: nat) -> bool
    decreases depth,
{
    match j {
        JsonView::Num(n) => !(n is Other) && canonical(n) == n,
        JsonView::Array(items) => depth > 0 && forall|i: int|
            0 <= i < items.len() ==> storable(#[trigger] items[i], (depth - 1) as nat),
        JsonView::Object(m) => depth > 0 && forall|k: Seq<char>|
            m.contains_key(k) ==> storable(#[trigger] m[k], (depth - 1) as nat),
        _ => true,
    }
}

/// Takes a `serde_json::Value` apart by its variants; the members of a
/// `serde_json::Map` come out through its iterator, each name once. The layer
/// holds what the value held.
#[verifier::external_body]
fn shape_of(v: serde_json::Value) -> (r: Shape)
    ensures
        shape_json(r) == value_json(v),
        r matches Shape::Object(entries) ==> distinct_names(value_entries(entries@)),
{
    match v {
        serde_json::Value::Null => Shape::Null,
        serde_json::Value::Bool(b) => Shape::Bool(b),
        serde_json::Value::Number(n) => Shape::Num(n),
        serde_json::Value::String(s) => Shape::Text(s),
        serde_json::Value::Array(items) => Shape::Array(items),
        serde_json::Value::Object(m) => Shape::Object(m.into_iter().collect()),
    }
}

/// Makes a `serde_json::Value` of one layer; the members, of which no two have the
/// same name, are collected into a `serde_json::Map`.
#[verifier::external_body]
fn value_of(s: Shape) -> (r: serde_json::Value)
    requires
        s matches Shape::Object(entries) ==> distinct_names(value_entries(entries@)),
    ensures
        value_json(r) == shape_json(s),
{
    match s {
        Shape::Null => serde_json::Value::Null,
        Shape::Bool(b) => serde_json::Value::Bool(b),
        Shape::Num(n) => serde_json::Value::Number(n),
        Shape::Text(s) => serde_json::Value::String(s),
        Shape::Array(items) => serde_json::Value::Array(items),
        Shape::Object(entries) => serde_json::Value::Object(entries.into_iter().collect()),
    }
}

/// `serde_json::Number::as_u64`: the number where it is an integer from zero up.
#[verifier::external_body]
fn number_as_u64(n: &serde_json::Number) -> (r: Option<u64>)
    ensures
        r == as_u64(JsonView::Num(number_json(*n))),
{
    n.as_u64()
}

/// `serde_json::Number::as_i64`: the number where it is an integer that fits.
#[verifier::external_body]
fn number_as_i64(n: &serde_json::Number) -> (r: Option<i64>)
    ensures
        r == as_i64(JsonView::Num(number_json(*n))),
{
    n.as_i64()
}

/// `serde_json::Number::from::<u64>`.
#[verifier::external_body]
fn number_from_u64(n: u64) -> (r: serde_json::Number)
    ensures
        number_json(r) == Num::Unsigned(n),
{
    serde_json::Number::from(n)
}

/// `serde_json::Number::from::<i64>`: what is not below zero is held as unsigned.
#[verifier::external_body]
fn number_from_i64(n: i64) -> (r: serde_json::Number)
    ensures
        number_json(r) == canonical(Num::Negative(n)),
{
    serde_json::Number::from(n)
}

/// `serde_json::Number::clone`: an equal number.
pub assume_specification[ <serde_json::Number as Clone>::clone ](n: &serde_json::Number) -> (r:
    serde_json::Number)
    ensures
        r == *n,
;

/// `serde_json::from_slice`: the value that the text spells, or an error.
#[verifier::external_body]
fn value_from_slice(bytes: &[u8]) -> (r: Result<serde_json::Value, serde_json::Error>)
    ensures
        match r {
            Ok(v) => json_parsed(bytes@) == Ok::<JsonView, Seq<char>>(value_json(v)),
            Err(e) => json_parsed(bytes@) == Err::<JsonView, Seq<char>>(error_text(e)),
        },
{
    serde_json::from_slice(bytes)
}

/// The display of a `serde_json::Error`.
#[verifier::external_body]
fn error_message(e: &serde_json::Error) -> (r: String)
    ensures
        r@ == error_text(*e),
{
    e.to_string()
}

/// `serde_json::to_vec` of a `Value`: it writes every value, and the parser
/// gives back what was written where the value holds no fraction and is not
/// nested deeper than the parser follows.
#[verifier::external_body]
fn value_to_vec(v: &serde_json::Value) -> (r: Result<Vec<u8>, serde_json::Error>)
    ensures
        match r {
            Ok(bytes) => bytes@ == json_bytes(value_json(*v)) && (storable(value_json(*v), 127)
                ==> json_parsed(bytes@) == Ok::<JsonView, Seq<char>>(value_json(*v))),
            Err(_) => false,
        },
{
    serde_json::to_vec(v)
}

/// The display of a `serde_json::Value`: its compact text, the one that
/// `serde_json::to_vec` writes.
#[verifier::external_body]
fn value_to_string(v: &serde_json::Value) -> (r: String)
    ensures
        r@ == json_text(value_json(*v)),
        encode_utf8(r@) == json_bytes(value_json(*v)),
{
    v.to_string()
}

/// `serde_json::to_string_pretty` of a `Value`: it writes every value.
#[verifier::external_body]
fn value_to_pretty(v: &serde_json::Value) -> (r: Result<String, serde_json::Error>)
    ensures
        match r {
            Ok(s) => s@ == json_pretty(value_json(*v)),
            Err(_) => false,
        },
{
    serde_json::to_string_pretty(v)
}

/// The number that a `serde_json::Number` holds, as plain data where it is unsigned.
fn num_of(n: serde_json::Number) -> (r: Num)
    ensures
        canonical(r) == number_json(n),
{
    match number_as_u64(&n) {
        Some(u) => Num::Unsigned(u),
        None => Num::Other(n),
    }
}

/// Reads a `serde_json::Value` layer by layer.
fn json_of(v: serde_json::Value) -> (r: Json)
    ensures
        r@ == value_json(v),
    decreases value_json(v),
{
    match shape_of(v) {
        Shape::Null => Json::Null,
        Shape::Bool(b) => Json::Bool(b),
        Shape::Num(n) => Json::Num(num_of(n)),
        Shape::Text(s) => Json::Text(s),
        Shape::Array(items) => {
            let ghost all = items@;
            let mut out: Vec<Json> = Vec::new();
            for x in it: items
                invariant
                    it.seq() == all,
                    value_json(v) == JsonView::Array(value_views(all)),
                    views(out@) == value_views(all).take(it.index() as int),
            {
                proof {
                    assert(value_views(all)[it.index() as int] == value_json(x));
                    let whole = value_json(v);
                    assert(decreases_to!(whole => whole->Array_0));
                    assert(decreases_to!(value_views(all) => value_views(all)[it.index() as int]));
                }
                let ghost before = out@;
                out.push(json_of(x));
                assert(views(out@) =~= views(before).push(value_json(x)));
                assert(views(out@) =~= value_views(all).take(it.index() + 1));
            }
            assert(views(out@) =~= value_views(all));
            array(out)
        },
        Shape::Object(entries) => {
            let ghost all = entries@;
            let mut out: Vec<(String, Json)> = Vec::new();
            for e in it: entries
                invariant
                    it.seq() == all,
                    value_json(v) == JsonView::Object(members(value_entries(all))),
                    distinct_names(value_entries(all)),
                    entry_views(out@) == value_entries(all).take(it.index() as int),
            {
                proof {
                    let entries = value_entries(all);
                    let i = it.index() as int;
                    assert(entries[i] == (e.0@, value_json(e.1)));
                    lemma_members_hold(entries, i);
                    lemma_members_finite(entries);
                    let whole = value_json(v);
                    assert(decreases_to!(whole => whole->Object_0));
                    assert(decreases_to!(members(entries) => members(entries)[e.0@]));
                }
                let ghost before = out@;
                out.push((e.0, json_of(e.1)));
                assert(entry_views(out@) =~= entry_views(before).push((e.0@, value_json(e.1))));
                assert(entry_views(out@) =~= value_entries(all).take(it.index() + 1));
            }
            proof {
                assert(entry_views(out@) =~= value_entries(all));
                lemma_object_view(out);
            }
            Json::Object(out)
        },
    }
}

/// Builds a `serde_json::Value` layer by layer.
fn serde_of(j: &Json) -> (r: serde_json::Value)
    ensures
        value_json(r) == j@,
    decreases j,
{
    match j {
        Json::Null => value_of(Shape::Null),
        Json::Bool(b) => value_of(Shape::Bool(*b)),
        Json::Num(Num::Unsigned(u)) => value_of(Shape::Num(number_from_u64(*u))),
        Json::Num(Num::Negative(i)) => value_of(Shape::Num(number_from_i64(*i))),
        Json::Num(Num::Other(n)) => value_of(Shape::Num(n.clone())),
        Json::Text(s) => value_of(Shape::Text(owned(s.as_str()))),
        Json::Array(items) => {
            let mut out: Vec<serde_json::Value> = Vec::new();
            let mut i: usize = 0;
            while i < items.len()
                invariant
                    i <= items@.len(),
                    j == Json::Array(*items),
                    value_views(out@) == views(items@).take(i as int),
                decreases items@.len() - i,
            {
                proof {
                    lemma_item_smaller(*items, i as int);
                }
                let v = serde_of(&items[i]);
                let ghost before = out@;
                out.push(v);
                i += 1;
                assert(value_views(out@) =~= value_views(before).push(value_json(v)));
                assert(value_views(out@) =~= views(items@).take(i as int));
            }
            proof {
                assert(value_views(out@) =~= views(items@));
                lemma_array_view(*items);
            }
            value_of(Shape::Array(out))
        },
        Json::Object(entries) => {
            let mut out: Vec<(String, serde_json::Value)> = Vec::new();
            let mut i: usize = 0;
            assert(value_entries(out@) =~= entry_views(entries@).take(0));
            while i < entries.len()
                invariant
                    i <= entries@.len(),
                    j == Json::Object(*entries),
                    distinct_names(value_entries(out@)),
                    members(value_entries(out@)) == members(entry_views(entries@).take(i as int)),
                decreases entries@.len() - i,
            {
                proof {
                    lemma_entry_smaller(*entries, i as int);
                    let part = entry_views(entries@).take(i + 1);
                    assert(part.drop_last() =~= entry_views(entries@).take(i as int));
                }
                let key = owned(entries[i].0.as_str());
                let v = serde_of(&entries[i].1);
                put_value(&mut out, key, v);
                i += 1;
            }
            proof {
                assert(entry_views(entries@).take(i as int) =~= entry_views(entries@));
                lemma_object_view(*entries);
            }
            value_of(Shape::Object(out))
        },
    }
}

/// Adds a member, in place of an earlier one of the same name.
fn put_value(out: &mut Vec<(String, serde_json::Value)>, key: String, value: serde_json::Value)
    requires
        distinct_names(value_entries(old(out)@)),
    ensures
        distinct_names(value_entries(final(out)@)),
        members(value_entries(final(out)@)) == members(value_entries(old(out)@)).insert(
            key@,
            value_json(value),
        ),
{
    let ghost before = value_entries(out@);
    let ghost v = value_json(value);
    let ghost name = key@;
    let mut p: usize = 0;
    while p < out.len() && !same_text(out[p].0.as_str(), key.as_str())
        invariant
            p <= out@.len(),
            before == value_entries(out@),
            forall|k: int| 0 <= k < p ==> (#[trigger] before[k]).0 != key@,
        decreases out@.len() - p,
    {
        assert(before[p as int].0 == out@[p as int].0@);
        p += 1;
    }
    if p < out.len() {
        assert(before[p as int].0 == name);
        out.set(p, (key, value));
        proof {
            lemma_members_update(before, p as int, v);
            assert(value_entries(out@) =~= before.update(p as int, (name, v)));
        }
    } else {
        out.push((key, value));
        proof {
            let all = value_entries(out@);
            assert(all =~= before.push((name, v)));
            assert(all.drop_last() =~= before);
        }
    }
}

/// Parses JSON text; a failure carries the parser's message.
pub fn parse_json(bytes: &[u8]) -> (r: Result<Json, String>)
    ensures
        match r {
            Ok(j) => json_parsed(bytes@) == Ok::<JsonView, Seq<char>>(j@),
            Err(e) => json_parsed(bytes@) == Err::<JsonView, Seq<char>>(e@),
        },
{
    match value_from_slice(bytes) {
        Ok(v) => Ok(json_of(v)),
        Err(e) => Err(error_message(&e)),
    }
}

/// Writes a value as compact JSON text. The parser gives back what was
/// written, unless the value holds a fraction or nests too deep.
pub fn write_json(j: &Json) -> (r: Vec<u8>)
    ensures
        r@ == json_bytes(j@),
        storable(j@, 127) ==> json_parsed(r@) == Ok::<JsonView, Seq<char>>(j@),
{
    let v = serde_of(j);
    match value_to_vec(&v) {
        Ok(bytes) => bytes,
        Err(_) => Vec::new(),
    }
}

/// A value as compact text, for a message.
pub fn show_json(j: &Json) -> (r: String)
    ensures
        r@ == json_text(j@),
        encode_utf8(r@) == json_bytes(j@),
{
    value_to_string(&serde_of(j))
}

/// A value as indented text, for output.
pub fn pretty_json(j: &Json) -> (r: String)
    ensures
        r@ == json_pretty(j@),
{
    let v = serde_of(j);
    match value_to_pretty(&v) {
        Ok(s) => s,
        Err(_) => String::new(),
    }
}

/// Where a name occurs more than once, the last member of that name counts, and the other
/// members are as they were.
pub proof fn lemma_last_member_counts(
    entries: Seq<(Seq<char>, JsonView)>,
    key: Seq<char>,
    value: JsonView,
    other: Seq<char>,
)
    ensures
        get(JsonView::Object(members(entries.push((key, value)))), key) == Some(value),
        other != key ==> get(JsonView::Object(members(entries.push((key, value)))), other) == get(
            JsonView::Object(members(entries)),
            other,
        ),
{
    assert(entries.push((key, value)).drop_last() =~= entries);
}

} // verus!
