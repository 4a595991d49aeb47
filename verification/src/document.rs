//! TOML as the configuration files write it: a thin, typed view of `toml`
//! values.
use vstd::prelude::*;
use toml::Value;
use crate::text;

verus! {

/// What a TOML value holds.
#[verifier::ext_equal]
pub enum Toml {
    Text(Seq<char>),
    Integer(i64),
    Bool(bool),
    List(Seq<Toml>),
    Table(Map<Seq<char>, Toml>),
    /// A float: the shortest decimal that names it.
    Float(Seq<char>),
    /// A date or a time.
    Other,
}

#[verifier::external_type_specification]
#[verifier::external_body]
pub struct ExValue(toml::Value);

/// What a `toml::Value` holds.
pub uninterp spec fn toml(value: toml::Value) -> Toml;

/// What `toml::from_str` reads from a text: the value that it writes, or what
/// is wrong with it.
pub uninterp spec fn parsed_toml(text: Seq<char>) -> Result<Toml, Seq<char>>;

/// `toml::from_str` into a `toml::Value`, and the text of its error: a function
/// of the text alone.
#[verifier::external_body]
pub(crate) fn read(text: &str) -> (result: Result<Value, String>)
    ensures
        match result {
            Ok(value) => parsed_toml(text@) == Ok::<Toml, Seq<char>>(toml(value)),
            Err(reason) => parsed_toml(text@) == Err::<Toml, Seq<char>>(reason@),
        },
{
    toml::from_str(text).map_err(|error: toml::de::Error| error.to_string())
}

/// `toml::Value::as_str`: the text of a string, and nothing of any other value.
#[verifier::external_body]
pub(crate) fn string(value: &Value) -> (text: Option<&str>)
    ensures
        match text {
            Some(text) => toml(*value) == Toml::Text(text@),
            None => !(toml(*value) is Text),
        },
{
    value.as_str()
}

/// `toml::Value::as_integer`: the number an integer is, and nothing of any other
/// value.
#[verifier::external_body]
pub(crate) fn integer(value: &Value) -> (n: Option<i64>)
    ensures
        match n {
            Some(n) => toml(*value) == Toml::Integer(n),
            None => !(toml(*value) is Integer),
        },
{
    value.as_integer()
}

/// `toml::Value::as_bool`: what a boolean is, and nothing of any other value.
#[verifier::external_body]
pub(crate) fn boolean(value: &Value) -> (b: Option<bool>)
    ensures
        match b {
            Some(b) => toml(*value) == Toml::Bool(b),
            None => !(toml(*value) is Bool),
        },
{
    value.as_bool()
}

/// `toml::Value::as_float`, and the decimal that its `Display` writes: the
/// shortest that names the float, without an exponent, and nothing of any other
/// value.
#[verifier::external_body]
pub(crate) fn decimal(value: &Value) -> (text: Option<String>)
    ensures
        match text {
            Some(text) => toml(*value) == Toml::Float(text@),
            None => !(toml(*value) is Float),
        },
{
    Some(value.as_float()?.to_string())
}

/// `toml::Value::as_array`: the elements of an array, and nothing of any other
/// value.
#[verifier::external_body]
pub(crate) fn list(value: &Value) -> (items: Option<&Vec<Value>>)
    ensures
        match items {
            Some(items) => toml(*value) == Toml::List(items@.map_values(|item: Value| toml(item))),
            None => !(toml(*value) is List),
        },
{
    value.as_array()
}

/// `toml::Value::as_table`, and the keys of the table in some order: every key
/// once, and nothing of any other value.
#[verifier::external_body]
pub(crate) fn keys(value: &Value) -> (keys: Option<Vec<String>>)
    ensures
        match keys {
            Some(keys) => toml(*value) is Table && text::views(keys@).to_set() == toml(
                *value,
            )->Table_0.dom(),
            None => !(toml(*value) is Table),
        },
{
    Some(value.as_table()?.keys().cloned().collect())
}

/// `toml::Value::get` with a string: the value under a key of a table, and
/// nothing of any other value.
#[verifier::external_body]
pub(crate) fn entry<'a>(value: &'a Value, key: &str) -> (found: Option<&'a Value>)
    ensures
        match found {
            Some(inner) => entry_of(toml(*value), key@) == Some(toml(*inner)),
            None => entry_of(toml(*value), key@) is None,
        },
{
    value.get(key)
}

/// What `toml::Value::to_string` writes for a value.
pub uninterp spec fn toml_text(value: Toml) -> Seq<char>;

/// `toml::Value::to_string`, of a value that holds no table, no float and no
/// date: a function of what the value holds.
#[verifier::external_body]
pub(crate) fn show(value: &Value) -> (out: String)
    requires
        toml(*value) is Text || toml(*value) is Integer || toml(*value) is Bool,
    ensures
        out@ == toml_text(toml(*value)),
{
    value.to_string()
}

/// The value under a key of a table.
pub open spec fn entry_of(value: Toml, key: Seq<char>) -> Option<Toml> {
    match value {
        Toml::Table(entries) => if entries.contains_key(key) {
            Some(entries[key])
        } else {
            None
        },
        _ => None,
    }
}

/// One field of a record. A record is written as a table, or as an array of its
/// fields in their order.
pub open spec fn field_of(value: Toml, place: int, key: Seq<char>) -> Option<Toml> {
    match value {
        Toml::List(items) => if 0 <= place < items.len() {
            Some(items[place])
        } else {
            None
        },
        _ => entry_of(value, key),
    }
}

/// One field of a record.
pub(crate) fn field<'a>(value: &'a Value, place: usize, key: &str) -> (found: Option<&'a Value>)
    ensures
        match found {
            Some(inner) => field_of(toml(*value), place as int, key@) == Some(toml(*inner)),
            None => field_of(toml(*value), place as int, key@) is None,
        },
{
    match list(value) {
        Some(items) => if place < items.len() {
            Some(&items[place])
        } else {
            None
        },
        None => entry(value, key),
    }
}

/// A field left out.
pub open spec fn missing(key: Seq<char>) -> Seq<char> {
    "missing field `"@ + key + "`"@
}

/// A field of another kind.
pub open spec fn mistyped(key: Seq<char>, wanted: Seq<char>) -> Seq<char> {
    "invalid type for `"@ + key + "`, expected "@ + wanted
}

fn say(a: &str, b: &str, c: &str, d: &str) -> (out: String)
    ensures
        out@ == a@ + b@ + c@ + d@,
        d@.len() == 0 ==> out@ == a@ + b@ + c@,
{
    let mut out: String = a.to_owned();
    out.append(b);
    out.append(c);
    out.append(d);
    assert(d@.len() == 0 ==> a@ + b@ + c@ + d@ =~= a@ + b@ + c@);
    out
}

pub(crate) fn say_missing(key: &str) -> (out: String)
    ensures
        out@ == missing(key@),
{
    proof {
        reveal_strlit("");
    }
    say("missing field `", key, "`", "")
}

pub(crate) fn say_mistyped(key: &str, wanted: &str) -> (out: String)
    ensures
        out@ == mistyped(key@, wanted@),
{
    say("invalid type for `", key, "`, expected ", wanted)
}

/// A text that has to be there.
pub open spec fn text_in(value: Toml, place: int, key: Seq<char>) -> Result<Seq<char>, Seq<char>> {
    match field_of(value, place, key) {
        None => Err(missing(key)),
        Some(Toml::Text(text)) => Ok(text),
        Some(_) => Err(mistyped(key, "a string"@)),
    }
}

/// A text that has to be there.
pub(crate) fn text_field<'a>(value: &'a Value, place: usize, key: &str) -> (text: Result<
    &'a str,
    String,
>)
    ensures
        match text {
            Ok(text) => text_in(toml(*value), place as int, key@) == Ok::<Seq<char>, Seq<char>>(
                text@,
            ),
            Err(reason) => text_in(toml(*value), place as int, key@) == Err::<
                Seq<char>,
                Seq<char>,
            >(reason@),
        },
{
    match field(value, place, key) {
        None => Err(say_missing(key)),
        Some(inner) => match string(inner) {
            Some(text) => Ok(text),
            None => Err(say_mistyped(key, "a string")),
        },
    }
}

/// A field that may be left out of a table, and out of an array only where it
/// has a default.
pub open spec fn may_lack(value: Toml, defaulted: bool) -> bool {
    defaulted || value is Table
}

/// A text that may be left out.
pub open spec fn optional_text_in(
    value: Toml,
    place: int,
    key: Seq<char>,
    defaulted: bool,
) -> Result<Option<Seq<char>>, Seq<char>> {
    match field_of(value, place, key) {
        None => if may_lack(value, defaulted) {
            Ok(None)
        } else {
            Err(missing(key))
        },
        Some(Toml::Text(text)) => Ok(Some(text)),
        Some(_) => Err(mistyped(key, "a string"@)),
    }
}

/// A text that may be left out.
pub(crate) fn optional_text_field(value: &Value, place: usize, key: &str, defaulted: bool) -> (text:
    Result<Option<String>, String>)
    requires
        toml(*value) is Table || toml(*value) is List,
    ensures
        match text {
            Ok(text) => optional_text_in(toml(*value), place as int, key@, defaulted) == Ok::<
                Option<Seq<char>>,
                Seq<char>,
            >(
                match text {
                    Some(text) => Some(text@),
                    None => None,
                },
            ),
            Err(reason) => optional_text_in(toml(*value), place as int, key@, defaulted) == Err::<
                Option<Seq<char>>,
                Seq<char>,
            >(reason@),
        },
{
    match field(value, place, key) {
        None => if defaulted || list(value).is_none() {
            Ok(None)
        } else {
            Err(say_missing(key))
        },
        Some(inner) => match string(inner) {
            Some(text) => Ok(Some(text.to_owned())),
            None => Err(say_mistyped(key, "a string")),
        },
    }
}

/// A key that stands in a table and is none of the known ones.
pub open spec fn is_unknown(
    entries: Map<Seq<char>, Toml>,
    known: Seq<Seq<char>>,
    key: Seq<char>,
) -> bool {
    entries.contains_key(key) && !known.contains(key)
}

/// The first of the unknown keys of a table.
pub open spec fn is_first_unknown(
    entries: Map<Seq<char>, Toml>,
    known: Seq<Seq<char>>,
    key: Seq<char>,
) -> bool {
    &&& is_unknown(entries, known, key)
    &&& forall|other: Seq<char>| #[trigger]
        is_unknown(entries, known, other) ==> !text::precedes(other, key)
}

/// The first of the unknown keys of a table, if it has one.
pub open spec fn first_unknown(value: Toml, known: Seq<Seq<char>>) -> Option<Seq<char>> {
    match value {
        Toml::Table(entries) => if exists|key: Seq<char>| is_first_unknown(entries, known, key) {
            Some(choose|key: Seq<char>| is_first_unknown(entries, known, key))
        } else {
            None
        },
        _ => None,
    }
}

/// What is said of an unknown key: the key, and its line where the value fits
/// on one.
pub open spec fn unknown_message(value: Toml, key: Seq<char>) -> Seq<char> {
    let said = "unknown field `"@ + key + "`"@;
    match entry_of(value, key) {
        Some(inner) => if inner is Text || inner is Integer || inner is Bool {
            said + ": "@ + key + " = "@ + toml_text(inner)
        } else {
            said
        },
        None => said,
    }
}

/// What is said where a table holds a key that is not known.
pub open spec fn unknown_in(value: Toml, known: Seq<Seq<char>>) -> Option<Seq<char>> {
    match first_unknown(value, known) {
        Some(key) => Some(unknown_message(value, key)),
        None => None,
    }
}

/// A finite set of texts has a first one.
proof fn lemma_least(texts: Set<Seq<char>>)
    requires
        texts.finite(),
        texts.len() > 0,
    ensures
        exists|least: Seq<char>|
            texts.contains(least) && forall|other: Seq<char>| #[trigger]
                texts.contains(other) ==> !text::precedes(other, least),
    decreases texts.len(),
{
    let one = texts.choose();
    let rest = texts.remove(one);
    text::lemma_precedes_asymmetric(one, one);
    if rest.len() == 0 {
        assert forall|other: Seq<char>| #[trigger] texts.contains(other) implies !text::precedes(
            other,
            one,
        ) by {
            if other != one {
                assert(rest.contains(other));
            }
        }
    } else {
        lemma_least(rest);
        let least = choose|least: Seq<char>|
            rest.contains(least) && forall|other: Seq<char>| #[trigger]
                rest.contains(other) ==> !text::precedes(other, least);
        let first = if text::precedes(one, least) {
            one
        } else {
            least
        };
        assert forall|other: Seq<char>| #[trigger] texts.contains(other) implies !text::precedes(
            other,
            first,
        ) by {
            if other != one {
                assert(rest.contains(other));
                if text::precedes(one, least) && text::precedes(other, one) {
                    text::lemma_precedes_transitive(other, one, least);
                }
            }
        }
        assert(texts.contains(first));
    }
}

/// A table with an unknown key is complained of.
pub proof fn lemma_unknown(
    entries: Map<Seq<char>, Toml>,
    known: Seq<Seq<char>>,
    key: Seq<char>,
)
    requires
        entries.dom().finite(),
        is_unknown(entries, known, key),
    ensures
        unknown_in(Toml::Table(entries), known) is Some,
{
    let unknown = entries.dom().filter(|k: Seq<char>| !known.contains(k));
    assert(unknown.contains(key));
    lemma_least(unknown);
    let least = choose|least: Seq<char>|
        unknown.contains(least) && forall|other: Seq<char>| #[trigger]
            unknown.contains(other) ==> !text::precedes(other, least);
    assert forall|other: Seq<char>| #[trigger]
        is_unknown(entries, known, other) implies !text::precedes(other, least) by {
        assert(unknown.contains(other));
    }
    assert(is_first_unknown(entries, known, least));
}

/// The keys of a table that are not known: a misspelled one fails at startup
/// instead of quietly leaving its default.
pub(crate) fn unknown_field(value: &Value, known: &[&str]) -> (found: Option<String>)
    ensures
        match found {
            Some(reason) => unknown_in(toml(*value), known@.map_values(|k: &str| k@)) == Some(
                reason@,
            ),
            None => unknown_in(toml(*value), known@.map_values(|k: &str| k@)) is None,
        },
{
    let all: Vec<String> = match keys(value) {
        Some(all) => all,
        None => {
            return None;
        },
    };
    let ghost entries = toml(*value)->Table_0;
    let ghost names = known@.map_values(|k: &str| k@);
    let ghost listed = text::views(all@);
    assert(forall|i: int| 0 <= i < listed.len() ==> entries.contains_key(#[trigger] listed[i])) by {
        assert forall|i: int| 0 <= i < listed.len() implies entries.contains_key(
            #[trigger] listed[i],
        ) by {
            assert(listed.contains(listed[i]));
            assert(listed.to_set().contains(listed[i]));
        }
    }
    let mut least: Option<usize> = None;
    let mut i: usize = 0;
    while i < all.len()
        invariant
            i <= all@.len(),
            listed == text::views(all@),
            names == known@.map_values(|k: &str| k@),
            forall|j: int| 0 <= j < listed.len() ==> entries.contains_key(#[trigger] listed[j]),
            match least {
                Some(at) => at < i && is_unknown(entries, names, listed[at as int]) && forall|j: int|
                    0 <= j < i && is_unknown(entries, names, #[trigger] listed[j])
                        ==> !text::precedes(listed[j], listed[at as int]),
                None => forall|j: int|
                    0 <= j < i ==> !is_unknown(entries, names, #[trigger] listed[j]),
            },
        decreases all@.len() - i,
    {
        let key: &str = all[i].as_str();
        assert(listed[i as int] == key@);
        if !among(known, key) {
            match least {
                Some(at) => {
                    if text::str_less(key, all[at].as_str()) {
                        proof {
                            let old = listed[at as int];
                            assert forall|j: int|
                                0 <= j < i + 1 && is_unknown(
                                    entries,
                                    names,
                                    #[trigger] listed[j],
                                ) implies !text::precedes(listed[j], key@) by {
                                if j == i {
                                    text::lemma_precedes_asymmetric(key@, key@);
                                } else if text::precedes(listed[j], key@) {
                                    text::lemma_precedes_transitive(listed[j], key@, old);
                                }
                            }
                        }
                        least = Some(i);
                    }
                },
                None => {
                    proof {
                        text::lemma_precedes_asymmetric(key@, key@);
                    }
                    least = Some(i);
                },
            }
        }
        i = i + 1;
    }
    match least {
        Some(at) => {
            let key: &str = all[at].as_str();
            proof {
                assert forall|other: Seq<char>| #[trigger]
                    is_unknown(entries, names, other) implies !text::precedes(other, key@) by {
                    assert(listed.to_set().contains(other));
                    let j = choose|j: int| 0 <= j < listed.len() && listed[j] == other;
                    assert(is_unknown(entries, names, listed[j]));
                }
                assert(is_first_unknown(entries, names, key@));
                let chosen = choose|key: Seq<char>| is_first_unknown(entries, names, key);
                if chosen != key@ {
                    text::lemma_precedes_total(chosen, key@);
                    assert(is_unknown(entries, names, chosen));
                    assert(is_unknown(entries, names, key@));
                }
            }
            proof {
                reveal_strlit("");
            }
            let mut out: String = say("unknown field `", key, "`", "");
            match entry(value, key) {
                Some(inner) => {
                    if string(inner).is_some() || integer(inner).is_some() || boolean(
                        inner,
                    ).is_some() {
                        out.append(": ");
                        out.append(key);
                        out.append(" = ");
                        let shown: String = show(inner);
                        out.append(shown.as_str());
                    }
                },
                None => {},
            }
            Some(out)
        },
        None => {
            proof {
                assert forall|key: Seq<char>| !is_first_unknown(entries, names, key) by {
                    if is_unknown(entries, names, key) {
                        assert(listed.to_set().contains(key));
                        let j = choose|j: int| 0 <= j < listed.len() && listed[j] == key;
                        assert(is_unknown(entries, names, listed[j]));
                    }
                }
            }
            None
        },
    }
}

/// Whether a text is one of the known ones.
fn among(known: &[&str], key: &str) -> (yes: bool)
    ensures
        yes == known@.map_values(|k: &str| k@).contains(key@),
{
    let ghost names = known@.map_values(|k: &str| k@);
    let mut i: usize = 0;
    while i < known.len()
        invariant
            i <= known@.len(),
            names == known@.map_values(|k: &str| k@),
            forall|j: int| 0 <= j < i ==> #[trigger] names[j] != key@,
        decreases known@.len() - i,
    {
        if text::same(known[i], key) {
            assert(names[i as int] == key@);
            return true;
        }
        i = i + 1;
    }
    false
}

// ---------------------------------------------------------------------------
// Fields with a default
// ---------------------------------------------------------------------------

/// A truth value, or its default.
pub open spec fn flag_in(value: Toml, place: int, key: Seq<char>, default: bool) -> Result<
    bool,
    Seq<char>,
> {
    match field_of(value, place, key) {
        None => Ok(default),
        Some(Toml::Bool(b)) => Ok(b),
        Some(_) => Err(mistyped(key, "a boolean"@)),
    }
}

/// A truth value, or its default.
pub(crate) fn flag_field(value: &Value, place: usize, key: &str, default: bool) -> (flag: Result<
    bool,
    String,
>)
    ensures
        match flag {
            Ok(flag) => flag_in(toml(*value), place as int, key@, default) == Ok::<bool, Seq<char>>(
                flag,
            ),
            Err(reason) => flag_in(toml(*value), place as int, key@, default) == Err::<
                bool,
                Seq<char>,
            >(reason@),
        },
{
    match field(value, place, key) {
        None => Ok(default),
        Some(inner) => match boolean(inner) {
            Some(b) => Ok(b),
            None => Err(say_mistyped(key, "a boolean")),
        },
    }
}

/// A whole number between two bounds, or its default.
pub open spec fn count_in(
    value: Toml,
    place: int,
    key: Seq<char>,
    default: i64,
    least: i64,
    most: i64,
) -> Result<i64, Seq<char>> {
    match field_of(value, place, key) {
        None => Ok(default),
        Some(Toml::Integer(n)) => if least <= n <= most {
            Ok(n)
        } else {
            Err(mistyped(key, "a number in range"@))
        },
        Some(_) => Err(mistyped(key, "an integer"@)),
    }
}

/// A whole number between two bounds, or its default.
pub(crate) fn count_field(
    value: &Value,
    place: usize,
    key: &str,
    default: i64,
    least: i64,
    most: i64,
) -> (count: Result<i64, String>)
    ensures
        match count {
            Ok(count) => count_in(toml(*value), place as int, key@, default, least, most) == Ok::<
                i64,
                Seq<char>,
            >(count),
            Err(reason) => count_in(toml(*value), place as int, key@, default, least, most)
                == Err::<i64, Seq<char>>(reason@),
        },
{
    match field(value, place, key) {
        None => Ok(default),
        Some(inner) => match integer(inner) {
            Some(n) => if least <= n && n <= most {
                Ok(n)
            } else {
                Err(say_mistyped(key, "a number in range"))
            },
            None => Err(say_mistyped(key, "an integer")),
        },
    }
}

/// A text, or its default.
pub open spec fn word_in(value: Toml, place: int, key: Seq<char>, default: Seq<char>) -> Result<
    Seq<char>,
    Seq<char>,
> {
    match field_of(value, place, key) {
        None => Ok(default),
        Some(Toml::Text(text)) => Ok(text),
        Some(_) => Err(mistyped(key, "a string"@)),
    }
}

/// A text, or its default.
pub(crate) fn word_field(value: &Value, place: usize, key: &str, default: &str) -> (word: Result<
    String,
    String,
>)
    ensures
        match word {
            Ok(word) => word_in(toml(*value), place as int, key@, default@) == Ok::<
                Seq<char>,
                Seq<char>,
            >(word@),
            Err(reason) => word_in(toml(*value), place as int, key@, default@) == Err::<
                Seq<char>,
                Seq<char>,
            >(reason@),
        },
{
    match field(value, place, key) {
        None => Ok(default.to_owned()),
        Some(inner) => match string(inner) {
            Some(text) => Ok(text.to_owned()),
            None => Err(say_mistyped(key, "a string")),
        },
    }
}

/// The decimal that a number is written as.
pub open spec fn decimal_of(value: Toml) -> Option<Seq<char>> {
    match value {
        Toml::Float(text) => Some(text),
        Toml::Integer(n) => Some(text::signed_decimal(n as int)),
        _ => None,
    }
}

/// A number as the decimal it is written as, where there is one.
pub open spec fn number_in(value: Toml, place: int, key: Seq<char>) -> Result<
    Option<Seq<char>>,
    Seq<char>,
> {
    match field_of(value, place, key) {
        None => Ok(None),
        Some(inner) => match decimal_of(inner) {
            Some(text) => Ok(Some(text)),
            None => Err(mistyped(key, "a number"@)),
        },
    }
}

/// A number as the decimal it is written as, where there is one.
pub(crate) fn number_field(value: &Value, place: usize, key: &str) -> (number: Result<
    Option<String>,
    String,
>)
    ensures
        match number {
            Ok(number) => number_in(toml(*value), place as int, key@) == Ok::<
                Option<Seq<char>>,
                Seq<char>,
            >(text::optional(number)),
            Err(reason) => number_in(toml(*value), place as int, key@) == Err::<
                Option<Seq<char>>,
                Seq<char>,
            >(reason@),
        },
{
    match field(value, place, key) {
        None => Ok(None),
        Some(inner) => match decimal(inner) {
            Some(text) => Ok(Some(text)),
            None => match integer(inner) {
                Some(n) => {
                    let mut out: String = String::new();
                    text::push_i64(&mut out, n);
                    assert(out@ =~= text::signed_decimal(n as int));
                    Ok(Some(out))
                },
                None => Err(say_mistyped(key, "a number")),
            },
        },
    }
}

/// Whether a value is written as a record.
pub open spec fn is_record(value: Toml) -> bool {
    value is Table || value is List
}

/// Whether a value is written as a record.
pub(crate) fn record(value: &Value) -> (yes: bool)
    ensures
        yes == is_record(toml(*value)),
{
    list(value).is_some() || keys(value).is_some()
}

} // verus!
