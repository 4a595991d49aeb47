//! JSON as the venues write it: a thin, typed view of `serde_json` values.
use vstd::prelude::*;
use serde_json::Value;
use crate::text;

pub mod shape;

verus! {

/// What a JSON value holds.
#[verifier::ext_equal]
pub enum Json {
    Null,
    Bool(bool),
    /// A number: the integer it is written as, if it is one that a signed or an
    /// unsigned 64-bit integer holds.
    Number(Option<int>),
    Text(Seq<char>),
    List(Seq<Json>),
    Object(Map<Seq<char>, Json>),
}

#[verifier::external_type_specification]
#[verifier::external_body]
pub struct ExValue(serde_json::Value);

#[verifier::external_type_specification]
#[verifier::external_body]
pub struct ExError(serde_json::Error);

/// What a `serde_json::Value` holds.
pub uninterp spec fn json(value: serde_json::Value) -> Json;

/// What `serde_json::from_str` reads from a text, if it reads anything: the
/// value that the text writes, the last member under a key where an object
/// names it more than once.
pub uninterp spec fn parsed_json(text: Seq<char>) -> Option<Json>;

/// `serde_json::from_str` into a `serde_json::Value`: a function of the text
/// alone. A text, an unsigned number or a list of texts that is written out is
/// read as what it is, and an object of such values, written out member by
/// member, is read as that object.
#[verifier::external_body]
pub(crate) fn read(text: &str) -> (result: Result<Value, serde_json::Error>)
    ensures
        match result {
            Ok(value) => parsed_json(text@) == Some(json(value)) && (forall|members: Seq<Member>|
                text@ == #[trigger] object_text(members) ==> json(value) == object_of(members))
                && forall|written: Written|
                text@ == #[trigger] value_text(written) ==> json(value) == value_of(written),
            Err(_) => parsed_json(text@) is None && (forall|members: Seq<Member>|
                text@ != #[trigger] object_text(members)) && forall|written: Written|
                text@ != #[trigger] value_text(written),
        },
{
    serde_json::from_str(text)
}

/// `serde_json::Value::get` with a string: the member of an object under a key,
/// and nothing of any other value.
#[verifier::external_body]
pub(crate) fn member<'a>(value: &'a Value, key: &str) -> (found: Option<&'a Value>)
    ensures
        match found {
            Some(inner) => member_of(json(*value), key@) == Some(json(*inner)),
            None => member_of(json(*value), key@) is None,
        },
{
    value.get(key)
}

/// `serde_json::Value::as_str`: the text of a string, and nothing of any other
/// value.
#[verifier::external_body]
pub(crate) fn string(value: &Value) -> (text: Option<&str>)
    ensures
        match text {
            Some(text) => json(*value) == Json::Text(text@),
            None => !(json(*value) is Text),
        },
{
    value.as_str()
}

/// `serde_json::Value::as_u64`: the number that an unsigned integer is, and
/// nothing of any other value.
#[verifier::external_body]
pub(crate) fn unsigned(value: &Value) -> (n: Option<u64>)
    ensures
        n == unsigned_of(json(*value)),
{
    value.as_u64()
}

/// `serde_json::Value::as_i64`: the number that a signed integer is, and nothing
/// of any other value.
#[verifier::external_body]
pub(crate) fn signed(value: &Value) -> (n: Option<i64>)
    ensures
        n == signed_of(json(*value)),
{
    value.as_i64()
}

/// `serde_json::Value::as_array`: the elements of an array, and nothing of any
/// other value.
#[verifier::external_body]
pub(crate) fn list(value: &Value) -> (items: Option<&Vec<Value>>)
    ensures
        match items {
            Some(items) => json(*value) == Json::List(items@.map_values(|item: Value| json(item))),
            None => !(json(*value) is List),
        },
{
    value.as_array()
}

/// `serde_json::Value::is_null`.
#[verifier::external_body]
pub(crate) fn null(value: &Value) -> (yes: bool)
    ensures
        yes == (json(*value) is Null),
{
    value.is_null()
}

/// `serde_json::Value::is_object`.
#[verifier::external_body]
pub(crate) fn object(value: &Value) -> (yes: bool)
    ensures
        yes == (json(*value) is Object),
{
    value.is_object()
}

/// What `serde_json::Value::to_string` writes for a string: the text in double
/// quotes, escaped as JSON asks.
pub uninterp spec fn json_string(text: Seq<char>) -> Seq<char>;

/// `serde_json::Value::to_string` of a string: a function of the text alone.
#[verifier::external_body]
pub(crate) fn quote(text: &str) -> (out: String)
    ensures
        out@ == json_string(text@),
{
    Value::from(text).to_string()
}

/// The strings of a list in JSON, with commas between them.
pub open spec fn json_list(strings: Seq<Seq<char>>, n: int) -> Seq<char>
    decreases n,
{
    if n <= 0 {
        Seq::empty()
    } else {
        json_list(strings, n - 1) + (if n > 1 {
            ","@
        } else {
            ""@
        }) + json_string(strings[n - 1])
    }
}

/// One member of an object, as it is written.
#[verifier::ext_equal]
pub struct Member {
    pub key: Seq<char>,
    pub value: Written,
}

/// A value, as it is written.
#[verifier::ext_equal]
pub enum Written {
    Number(u64),
    Text(Seq<char>),
    Texts(Seq<Seq<char>>),
}

/// What a value is written as.
pub open spec fn value_text(value: Written) -> Seq<char> {
    match value {
        Written::Number(n) => text::decimal(n as nat),
        Written::Text(text) => json_string(text),
        Written::Texts(texts) => "["@ + json_list(texts, texts.len() as int) + "]"@,
    }
}

/// What the first `n` members are written as.
pub open spec fn members_text(members: Seq<Member>, n: int) -> Seq<char>
    decreases n,
{
    if n <= 0 {
        Seq::empty()
    } else {
        members_text(members, n - 1) + (if n > 1 {
            ","@
        } else {
            ""@
        }) + json_string(members[n - 1].key) + ":"@ + value_text(members[n - 1].value)
    }
}

/// What an object is written as.
pub open spec fn object_text(members: Seq<Member>) -> Seq<char> {
    "{"@ + members_text(members, members.len() as int) + "}"@
}

/// The value that is written.
pub open spec fn value_of(value: Written) -> Json {
    match value {
        Written::Number(n) => Json::Number(Some(n as int)),
        Written::Text(text) => Json::Text(text),
        Written::Texts(texts) => Json::List(texts.map_values(|text: Seq<char>| Json::Text(text))),
    }
}

/// The first `n` members that are written: the last of those under one key.
pub open spec fn members_of(members: Seq<Member>, n: int) -> Map<Seq<char>, Json>
    decreases n,
{
    if n <= 0 {
        Map::empty()
    } else {
        members_of(members, n - 1).insert(members[n - 1].key, value_of(members[n - 1].value))
    }
}

/// The object that is written.
pub open spec fn object_of(members: Seq<Member>) -> Json {
    Json::Object(members_of(members, members.len() as int))
}

/// The strings of a list in JSON, with commas between them.
pub(crate) fn list_json(strings: &[String]) -> (out: String)
    ensures
        out@ == json_list(text::views(strings@), strings@.len() as int),
{
    let ghost all = text::views(strings@);
    let mut out: String = String::new();
    let mut i: usize = 0;
    assert(out@ =~= json_list(all, 0));
    while i < strings.len()
        invariant
            i <= strings@.len(),
            all == text::views(strings@),
            out@ == json_list(all, i as int),
        decreases strings@.len() - i,
    {
        if i > 0 {
            out.append(",");
        } else {
            out.append("");
        }
        assert(all[i as int] == strings@[i as int]@);
        out.append(quote(strings[i].as_str()).as_str());
        i = i + 1;
    }
    out
}

/// Writes the next member of an object.
pub(crate) fn write_member(out: &mut String, key: &str, value: &str, Ghost(members): Ghost<
    Seq<Member>,
>, Ghost(n): Ghost<int>)
    requires
        0 <= n < members.len(),
        members[n].key == key@,
        value_text(members[n].value) == value@,
        old(out)@ == "{"@ + members_text(members, n),
    ensures
        final(out)@ == "{"@ + members_text(members, n + 1),
{
    let ghost before = out@;
    let first: bool = out.as_str().unicode_len() == 1;
    proof {
        reveal_strlit("{");
        reveal_strlit("");
        lemma_members_text(members, n);
    }
    let comma: &str = if first {
        ""
    } else {
        ","
    };
    out.append(comma);
    out.append(quote(key).as_str());
    out.append(":");
    out.append(value);
    assert(out@ =~= "{"@ + members_text(members, n + 1));
}

pub(crate) proof fn lemma_members_text(members: Seq<Member>, n: int)
    requires
        0 <= n <= members.len(),
    ensures
        n == 0 ==> members_text(members, n).len() == 0,
        n > 0 ==> members_text(members, n).len() > 0,
{
    reveal_strlit(":");
}

/// The member of an object under a key.
pub open spec fn member_of(value: Json, key: Seq<char>) -> Option<Json> {
    match value {
        Json::Object(members) => if members.contains_key(key) {
            Some(members[key])
        } else {
            None
        },
        _ => None,
    }
}

pub open spec fn unsigned_of(value: Json) -> Option<u64> {
    match value {
        Json::Number(Some(n)) => if 0 <= n <= u64::MAX {
            Some(n as u64)
        } else {
            None
        },
        _ => None,
    }
}

pub open spec fn signed_of(value: Json) -> Option<i64> {
    match value {
        Json::Number(Some(n)) => if i64::MIN <= n <= i64::MAX {
            Some(n as i64)
        } else {
            None
        },
        _ => None,
    }
}

/// A record: an object, or an array of `least` to `most` fields in order.
pub open spec fn is_record(value: Json, least: int, most: int) -> bool {
    match value {
        Json::Object(_) => true,
        Json::List(items) => least <= items.len() <= most,
        _ => false,
    }
}

/// A field of a record: by its name in an object, by its place in an array.
pub open spec fn field_of(value: Json, place: int, key: Seq<char>) -> Option<Json> {
    match value {
        Json::List(items) => if 0 <= place < items.len() {
            Some(items[place])
        } else {
            None
        },
        _ => member_of(value, key),
    }
}

/// The text of a field that must be there.
pub open spec fn text_of(field: Option<Json>) -> Option<Seq<char>> {
    match field {
        Some(Json::Text(text)) => Some(text),
        _ => None,
    }
}

/// The number of a field that may be left out or null; an error where it is
/// anything else.
pub open spec fn optional_unsigned(field: Option<Json>) -> Result<Option<u64>, ()> {
    match field {
        None => Ok(None),
        Some(Json::Null) => Ok(None),
        Some(value) => match unsigned_of(value) {
            Some(n) => Ok(Some(n)),
            None => Err(()),
        },
    }
}

/// The text of a field that may be left out or null; an error where it is
/// anything else.
pub open spec fn optional_text(field: Option<Json>) -> Result<Option<Seq<char>>, ()> {
    match field {
        None => Ok(None),
        Some(Json::Null) => Ok(None),
        Some(Json::Text(text)) => Ok(Some(text)),
        Some(_) => Err(()),
    }
}

/// Whether a value is a record of `least` to `most` fields.
pub(crate) fn record(value: &Value, least: usize, most: usize) -> (yes: bool)
    ensures
        yes == is_record(json(*value), least as int, most as int),
{
    match list(value) {
        Some(items) => least <= items.len() && items.len() <= most,
        None => object(value),
    }
}

/// A field of a record, if it is there.
pub(crate) fn field<'a>(value: &'a Value, place: usize, key: &str) -> (found: Option<&'a Value>)
    ensures
        match found {
            Some(inner) => field_of(json(*value), place as int, key@) == Some(json(*inner)),
            None => field_of(json(*value), place as int, key@) is None,
        },
{
    match list(value) {
        Some(items) => if place < items.len() {
            Some(&items[place])
        } else {
            None
        },
        None => member(value, key),
    }
}

/// The text of a field that must be there.
pub(crate) fn text_field<'a>(value: &'a Value, place: usize, key: &str) -> (text: Option<&'a str>)
    ensures
        match text {
            Some(text) => text_of(field_of(json(*value), place as int, key@)) == Some(text@),
            None => text_of(field_of(json(*value), place as int, key@)) is None,
        },
{
    match field(value, place, key) {
        Some(inner) => string(inner),
        None => None,
    }
}

/// The number of a field that may be left out or null.
pub(crate) fn optional_unsigned_field(value: &Value, place: usize, key: &str) -> (n: Result<
    Option<u64>,
    (),
>)
    ensures
        n == optional_unsigned(field_of(json(*value), place as int, key@)),
{
    match field(value, place, key) {
        None => Ok(None),
        Some(inner) => if null(inner) {
            Ok(None)
        } else {
            match unsigned(inner) {
                Some(n) => Ok(Some(n)),
                None => Err(()),
            }
        },
    }
}

/// The text of a field that may be left out or null.
pub(crate) fn optional_text_field<'a>(value: &'a Value, place: usize, key: &str) -> (text: Result<
    Option<&'a str>,
    (),
>)
    ensures
        match text {
            Ok(Some(text)) => optional_text(field_of(json(*value), place as int, key@)) == Ok::<
                Option<Seq<char>>,
                (),
            >(Some(text@)),
            Ok(None) => optional_text(field_of(json(*value), place as int, key@)) == Ok::<
                Option<Seq<char>>,
                (),
            >(None),
            Err(()) => optional_text(field_of(json(*value), place as int, key@)) is Err,
        },
{
    match field(value, place, key) {
        None => Ok(None),
        Some(inner) => if null(inner) {
            Ok(None)
        } else {
            match string(inner) {
                Some(text) => Ok(Some(text)),
                None => Err(()),
            }
        },
    }
}

/// The text of a field that may be left out; an error where it is anything else.
pub open spec fn defaulted_text(field: Option<Json>) -> Option<Seq<char>> {
    match field {
        None => Some(Seq::empty()),
        Some(Json::Text(text)) => Some(text),
        Some(_) => None,
    }
}

/// The number of a field that may be left out; an error where it is anything
/// else.
pub open spec fn defaulted_signed(field: Option<Json>) -> Option<i64> {
    match field {
        None => Some(0),
        Some(value) => signed_of(value),
    }
}

/// The text of a field that may be left out.
pub(crate) fn defaulted_text_field(value: &Value, place: usize, key: &str) -> (text: Option<String>)
    ensures
        match text {
            Some(text) => defaulted_text(field_of(json(*value), place as int, key@)) == Some(text@),
            None => defaulted_text(field_of(json(*value), place as int, key@)) is None,
        },
{
    match field(value, place, key) {
        None => {
            let none: String = String::new();
            assert(none@ =~= Seq::<char>::empty());
            Some(none)
        },
        Some(inner) => match string(inner) {
            Some(text) => Some(text.to_owned()),
            None => None,
        },
    }
}

/// The number of a field that may be left out.
pub(crate) fn defaulted_signed_field(value: &Value, place: usize, key: &str) -> (n: Option<i64>)
    ensures
        n == defaulted_signed(field_of(json(*value), place as int, key@)),
{
    match field(value, place, key) {
        None => Some(0),
        Some(inner) => signed(inner),
    }
}

} // verus!
