//! JSON values: the replies of Kythe's servers, and what is sent to them.
//!
//! Reading and writing JSON text is `serde_json`'s work. What this crate reads
//! in a reply, it reads in a [`Json`].

use vstd::prelude::*;

use crate::text::{before, same};

verus! {

/// A JSON value.
#[derive(Debug)]
pub enum Json {
    Null,
    Bool(bool),
    /// A number that is a natural one.
    UInt(u64),
    /// A number that is a negative integer.
    Int(i64),
    /// Any other number, as it is written.
    Float(String),
    Text(String),
    List(Vec<Json>),
    /// The members of an object.
    Object(Vec<(String, Json)>),
}

/// What a [`Json`] says.
pub enum JsonView {
    Null,
    Bool(bool),
    UInt(u64),
    Int(i64),
    Float(Seq<char>),
    Text(Seq<char>),
    List(Seq<JsonView>),
    Object(Seq<(Seq<char>, JsonView)>),
}

/// What a JSON value says.
pub open spec fn json_view(j: Json) -> JsonView
    decreases j,
{
    match j {
        Json::Null => JsonView::Null,
        Json::Bool(b) => JsonView::Bool(b),
        Json::UInt(n) => JsonView::UInt(n),
        Json::Int(n) => JsonView::Int(n),
        Json::Float(s) => JsonView::Float(s@),
        Json::Text(s) => JsonView::Text(s@),
        Json::List(items) => JsonView::List(list_view(items@)),
        Json::Object(members) => JsonView::Object(members_view(members@)),
    }
}

/// What the items of a list say.
pub open spec fn list_view(items: Seq<Json>) -> Seq<JsonView>
    decreases items,
{
    if items.len() == 0 {
        seq![]
    } else {
        list_view(items.drop_last()).push(json_view(items.last()))
    }
}

/// What the members of an object say.
pub open spec fn members_view(members: Seq<(String, Json)>) -> Seq<(Seq<char>, JsonView)>
    decreases members,
{
    if members.len() == 0 {
        seq![]
    } else {
        members_view(members.drop_last()).push((members.last().0@, json_view(members.last().1)))
    }
}

impl View for Json {
    type V = JsonView;

    open spec fn view(&self) -> JsonView {
        json_view(*self)
    }
}

/// The items say what they say one by one.
pub proof fn lemma_list_view(items: Seq<Json>)
    ensures
        list_view(items).len() == items.len(),
        forall|i: int| 0 <= i < items.len() ==> #[trigger] list_view(items)[i] == json_view(items[i]),
    decreases items.len(),
{
    if items.len() > 0 {
        lemma_list_view(items.drop_last());
    }
}

/// The members say what they say one by one.
pub proof fn lemma_members_view(members: Seq<(String, Json)>)
    ensures
        members_view(members).len() == members.len(),
        forall|i: int|
            0 <= i < members.len() ==> #[trigger] members_view(members)[i] == (
                members[i].0@,
                json_view(members[i].1),
            ),
    decreases members.len(),
{
    if members.len() > 0 {
        lemma_members_view(members.drop_last());
    }
}

// ------------------------------------------------------------ serde_json

/// A JSON value of `serde_json`.
#[verifier::external_type_specification]
#[verifier::external_body]
pub struct ExValue(serde_json::Value);

/// Why `serde_json` could not read a text.
#[verifier::external_type_specification]
#[verifier::external_body]
pub struct ExError(serde_json::Error);

/// What a value of `serde_json` holds.
pub uninterp spec fn json_contents(v: serde_json::Value) -> JsonView;

/// What `serde_json::from_slice` reads from these bytes, if they are JSON.
pub uninterp spec fn json_parsed(bytes: Seq<u8>) -> Option<JsonView>;

/// How `serde_json` writes a value, in its compact form.
pub uninterp spec fn json_compact(j: JsonView) -> Seq<char>;

/// A value as `serde_json` can hold and give back: the members of an object
/// are in the order of their names, each name once, and there is no number
/// but integers, negative ones as such.
pub open spec fn canonical(j: JsonView) -> bool
    decreases j,
{
    match j {
        JsonView::Int(n) => n < 0,
        JsonView::Float(_) => false,
        JsonView::List(items) => forall|i: int| 0 <= i < items.len() ==> canonical(items[i]),
        JsonView::Object(members) => {
            &&& forall|i: int| 0 <= i < members.len() ==> canonical((#[trigger] members[i]).1)
            &&& forall|i: int, k: int|
                0 <= i < k < members.len() ==> before(
                    (#[trigger] members[i]).0,
                    (#[trigger] members[k]).0,
                )
        },
        _ => true,
    }
}

/// Calls `serde_json::from_slice` for a `serde_json::Value`. Whether the bytes
/// are JSON, and what they say, depends on the bytes alone.
#[verifier::external_body]
fn parse_value(bytes: &[u8]) -> (r: Result<serde_json::Value, serde_json::Error>)
    ensures
        r matches Ok(v) ==> json_parsed(bytes@) == Some(json_contents(v)),
        r is Err ==> json_parsed(bytes@) is None,
{
    serde_json::from_slice(bytes)
}

/// Takes a `serde_json::Value` apart by its variants, and hands over what it
/// holds. Numbers are told apart by `Number::as_u64` and `Number::as_i64`.
#[verifier::external_body]
fn json_of(v: serde_json::Value) -> (r: Json)
    ensures
        r@ == json_contents(v),
{
    match v {
        serde_json::Value::Null => Json::Null,
        serde_json::Value::Bool(b) => Json::Bool(b),
        serde_json::Value::Number(n) => match (n.as_u64(), n.as_i64()) {
            (Some(u), _) => Json::UInt(u),
            (None, Some(i)) => Json::Int(i),
            (None, None) => Json::Float(n.to_string()),
        },
        serde_json::Value::String(s) => Json::Text(s),
        serde_json::Value::Array(a) => Json::List(a.into_iter().map(json_of).collect()),
        serde_json::Value::Object(m) => Json::Object(m.into_iter().map(|(k, x)| (k, json_of(x))).collect()),
    }
}

/// Builds a `serde_json::Value` that holds what `j` says.
#[verifier::external_body]
fn value_of(j: &Json) -> (r: serde_json::Value)
    requires
        canonical(j@),
    ensures
        json_contents(r) == j@,
{
    match j {
        Json::Null | Json::Float(_) => serde_json::Value::Null,
        Json::Bool(b) => serde_json::Value::from(*b),
        Json::UInt(n) => serde_json::Value::from(*n),
        Json::Int(n) => serde_json::Value::from(*n),
        Json::Text(s) => serde_json::Value::from(s.as_str()),
        Json::List(a) => serde_json::Value::Array(a.iter().map(value_of).collect()),
        Json::Object(m) => serde_json::Value::Object(m.iter().map(|(k, x)| (k.clone(), value_of(x))).collect()),
    }
}

/// Calls `ToString::to_string` on a `serde_json::Value`, which writes it in its
/// compact form.
#[verifier::external_body]
fn value_text(v: &serde_json::Value) -> (r: String)
    ensures
        r@ == json_compact(json_contents(*v)),
{
    v.to_string()
}

// ---------------------------------------------------------------- reading

/// Bytes that are not JSON.
#[derive(Clone, Copy, Debug, PartialEq, Eq)]
pub struct BadJson;

/// What a reply says: nothing at all where it is empty.
pub open spec fn reply_parsed(bytes: Seq<u8>) -> Option<JsonView> {
    if bytes.len() == 0 {
        Some(JsonView::Null)
    } else {
        json_parsed(bytes)
    }
}

/// Reads a reply.
pub fn parse_reply(bytes: &[u8]) -> (r: Result<Json, BadJson>)
    ensures
        r matches Ok(j) ==> reply_parsed(bytes@) == Some(j@),
        r is Err ==> reply_parsed(bytes@) is None,
{
    if bytes.len() == 0 {
        return Ok(Json::Null);
    }
    match parse_value(bytes) {
        Ok(v) => Ok(json_of(v)),
        Err(_) => Err(BadJson),
    }
}

/// A reply as it came, letter for letter, where it is one.
pub fn raw_reply(bytes: Vec<u8>) -> (r: Result<Vec<u8>, BadJson>)
    ensures
        r matches Ok(v) ==> reply_parsed(bytes@) is Some && v@ == bytes@,
        r is Err ==> reply_parsed(bytes@) is None,
{
    match parse_reply(bytes.as_slice()) {
        Ok(_) => Ok(bytes),
        Err(e) => Err(e),
    }
}

/// Writes a value in its compact form.
pub fn write_json(j: &Json) -> (r: String)
    requires
        canonical(j@),
    ensures
        r@ == json_compact(j@),
{
    value_text(&value_of(j))
}

impl JsonView {
    /// The first member of this name.
    pub open spec fn member(self, key: Seq<char>) -> Option<JsonView> {
        match self {
            JsonView::Object(members) => first_member(members, key),
            _ => None,
        }
    }

    /// The text, where the value is one.
    pub open spec fn text(self) -> Option<Seq<char>> {
        match self {
            JsonView::Text(s) => Some(s),
            _ => None,
        }
    }

    /// The natural number, where the value is one.
    pub open spec fn natural(self) -> Option<u64> {
        match self {
            JsonView::UInt(n) => Some(n),
            _ => None,
        }
    }

    /// The items, where the value is a list; none otherwise.
    pub open spec fn items(self) -> Seq<JsonView> {
        match self {
            JsonView::List(items) => items,
            _ => seq![],
        }
    }

    /// The values of the members, where the value is an object; none otherwise.
    pub open spec fn values(self) -> Seq<JsonView> {
        match self {
            JsonView::Object(members) => members.map_values(|m: (Seq<char>, JsonView)| m.1),
            _ => seq![],
        }
    }

    /// The text of the member of this name; empty where there is none.
    pub open spec fn text_at(self, key: Seq<char>) -> Seq<char> {
        match self.member(key) {
            Some(v) => match v.text() {
                Some(s) => s,
                None => seq![],
            },
            None => seq![],
        }
    }

    /// The items of the member of this name.
    pub open spec fn items_at(self, key: Seq<char>) -> Seq<JsonView> {
        match self.member(key) {
            Some(v) => v.items(),
            None => seq![],
        }
    }

    /// The values of the members of the member of this name.
    pub open spec fn values_at(self, key: Seq<char>) -> Seq<JsonView> {
        match self.member(key) {
            Some(v) => v.values(),
            None => seq![],
        }
    }
}

/// The first member of this name.
pub open spec fn first_member(members: Seq<(Seq<char>, JsonView)>, key: Seq<char>) -> Option<
    JsonView,
>
    decreases members.len(),
{
    if members.len() == 0 {
        None
    } else if members[0].0 == key {
        Some(members[0].1)
    } else {
        first_member(members.skip(1), key)
    }
}

impl Json {
    /// The member of this name.
    pub fn get(&self, key: &str) -> (r: Option<&Json>)
        ensures
            r matches Some(j) ==> self@.member(key@) == Some(j@),
            r is None ==> self@.member(key@) is None,
    {
        match self {
            Json::Object(members) => {
                let ghost all = members_view(members@);
                let mut i: usize = 0;
                proof {
                    lemma_members_view(members@);
                    assert(all.skip(0) =~= all);
                }
                while i < members.len()
                    invariant
                        i <= members@.len(),
                        all == members_view(members@),
                        all.len() == members@.len(),
                        self@ == JsonView::Object(all),
                        first_member(all, key@) == first_member(all.skip(i as int), key@),
                    decreases members@.len() - i,
                {
                    let (name, value) = &members[i];
                    proof {
                        lemma_members_view(members@);
                        assert(all.skip(i as int)[0] == all[i as int]);
                        assert(all.skip(i as int).skip(1) =~= all.skip(i + 1));
                    }
                    if same(name.as_str(), key) {
                        return Some(value);
                    }
                    i += 1;
                }
                None
            },
            _ => None,
        }
    }

    /// The text, where the value is one.
    pub fn as_str(&self) -> (r: Option<&str>)
        ensures
            r matches Some(s) ==> self@.text() == Some(s@),
            r is None ==> self@.text() is None,
    {
        match self {
            Json::Text(s) => Some(s.as_str()),
            _ => None,
        }
    }

    /// The natural number, where the value is one.
    pub fn as_u64(&self) -> (r: Option<u64>)
        ensures
            r == self@.natural(),
    {
        match self {
            Json::UInt(n) => Some(*n),
            _ => None,
        }
    }

    /// How many items the value has: 0 where it is no list.
    pub fn count(&self) -> (r: usize)
        ensures
            r == self@.items().len(),
    {
        match self {
            Json::List(items) => {
                proof {
                    lemma_list_view(items@);
                }
                items.len()
            },
            _ => 0,
        }
    }

    /// The item at `i`.
    pub fn item(&self, i: usize) -> (r: &Json)
        requires
            i < self@.items().len(),
        ensures
            r@ == self@.items()[i as int],
    {
        match self {
            Json::List(items) => {
                proof {
                    lemma_list_view(items@);
                }
                &items[i]
            },
            _ => self,
        }
    }

    /// How many members the value has: 0 where it is no object.
    pub fn size(&self) -> (r: usize)
        ensures
            r == self@.values().len(),
    {
        match self {
            Json::Object(members) => {
                proof {
                    lemma_members_view(members@);
                }
                members.len()
            },
            _ => 0,
        }
    }

    /// The value of the member at `i`.
    pub fn value(&self, i: usize) -> (r: &Json)
        requires
            i < self@.values().len(),
        ensures
            r@ == self@.values()[i as int],
    {
        match self {
            Json::Object(members) => {
                proof {
                    lemma_members_view(members@);
                }
                &members[i].1
            },
            _ => self,
        }
    }

    /// The text of the member of this name; empty where there is none.
    pub fn str_at(&self, key: &str) -> (r: &str)
        ensures
            r@ == self@.text_at(key@),
    {
        proof {
            reveal_strlit("");
            assert(""@ =~= seq![]);
        }
        match self.get(key) {
            Some(v) => match v.as_str() {
                Some(s) => s,
                None => "",
            },
            None => "",
        }
    }
}

// ------------------------------------------------------------------- laws

/// The member of a name is the first one that has it, and only objects have
/// members.
pub proof fn lemma_member_is(members: Seq<(Seq<char>, JsonView)>, key: Seq<char>, i: int)
    requires
        0 <= i <= members.len(),
        forall|k: int| 0 <= k < i ==> (#[trigger] members[k]).0 != key,
    ensures
        i < members.len() && members[i].0 == key ==> JsonView::Object(members).member(key) == Some(
            members[i].1,
        ),
        i == members.len() ==> JsonView::Object(members).member(key) is None,
        forall|j: JsonView| !(j is Object) ==> (#[trigger] j.member(key)) is None,
    decreases i,
{
    if i > 0 {
        let rest = members.skip(1);
        assert(members[0].0 != key);
        assert forall|k: int| 0 <= k < i - 1 implies (#[trigger] rest[k]).0 != key by {
            assert(rest[k] == members[k + 1]);
        }
        lemma_member_is(rest, key, i - 1);
        if i < members.len() {
            assert(rest[i - 1] == members[i]);
        }
    }
}

/// What can be read of a value: the text of a text, the number of a natural
/// number, the items of a list and the values of an object; what is asked of a
/// value of another kind is not there.
pub proof fn lemma_values_are(
    j: JsonView,
    s: Seq<char>,
    n: u64,
    list: Seq<JsonView>,
    members: Seq<(Seq<char>, JsonView)>,
)
    ensures
        JsonView::Text(s).text() == Some(s),
        !(j is Text) ==> j.text() is None,
        JsonView::UInt(n).natural() == Some(n),
        !(j is UInt) ==> j.natural() is None,
        JsonView::List(list).items() == list,
        !(j is List) ==> j.items().len() == 0,
        JsonView::Object(members).values().len() == members.len(),
        forall|i: int|
            0 <= i < members.len() ==> #[trigger] JsonView::Object(members).values()[i]
                == members[i].1,
        !(j is Object) ==> j.values().len() == 0,
{
}

/// What can be read of the member of a name: its text, its items, the values
/// of its members; nothing where there is no such member or it is of another
/// kind.
pub proof fn lemma_values_at_are(j: JsonView, key: Seq<char>, s: Seq<char>)
    ensures
        j.member(key) == Some(JsonView::Text(s)) ==> j.text_at(key) == s,
        (match j.member(key) {
            Some(JsonView::Text(_)) => false,
            _ => true,
        }) ==> j.text_at(key).len() == 0,
        j.member(key) matches Some(v) ==> j.items_at(key) == v.items() && j.values_at(key)
            == v.values(),
        j.member(key) is None ==> j.items_at(key).len() == 0 && j.values_at(key).len() == 0,
{
}

/// Each value of the library says what it holds.
pub proof fn lemma_json_views_are(b: bool, n: u64, i: i64, s: String, list: Vec<Json>)
    ensures
        json_view(Json::Null) == JsonView::Null,
        json_view(Json::Bool(b)) == JsonView::Bool(b),
        json_view(Json::UInt(n)) == JsonView::UInt(n),
        json_view(Json::Int(i)) == JsonView::Int(i),
        json_view(Json::Float(s)) == JsonView::Float(s@),
        json_view(Json::Text(s)) == JsonView::Text(s@),
        json_view(Json::List(list)) == JsonView::List(list_view(list@)),
        Json::Text(s)@ == json_view(Json::Text(s)),
{
}

/// A reply without a byte says null, and any other one says what its bytes are
/// read as.
pub proof fn lemma_reply_is(bytes: Seq<u8>)
    ensures
        bytes.len() == 0 ==> reply_parsed(bytes) == Some(JsonView::Null),
        bytes.len() > 0 ==> reply_parsed(bytes) == json_parsed(bytes),
{
}

} // verus!
