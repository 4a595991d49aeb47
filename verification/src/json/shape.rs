//! What a payload may hold.
//!
//! A record takes the members it knows, each at most once, and skips the others
//! without reading what they hold. `serde_json` finds where a value ends and
//! reads it; which values a payload is cut down to is decided here.
use vstd::prelude::*;
use serde_json::Value;
use super::{Json, Member, Written};
use crate::json;
use crate::text;

verus! {

/// What a value has to be for its members to matter.
pub enum Shape {
    /// Anything.
    Any,
    /// A list of values of one shape.
    List(Box<Shape>),
    /// A record: the names of its fields, in order, and what each holds.
    Record { names: Vec<String>, shapes: Vec<Shape> },
}

/// What a [`Shape`] says.
pub enum ShapeView {
    Any,
    List(Box<ShapeView>),
    Record { names: Seq<Seq<char>>, shapes: Seq<ShapeView> },
}

impl Shape {
    pub open spec fn view(&self) -> ShapeView
        decreases self,
    {
        match self {
            Shape::Any => ShapeView::Any,
            Shape::List(inner) => ShapeView::List(Box::new(inner.view())),
            Shape::Record { names, shapes } => ShapeView::Record {
                names: text::views(names@),
                shapes: Seq::new(
                    shapes@.len(),
                    |i: int|
                        if 0 <= i < shapes@.len() {
                            shapes@[i].view()
                        } else {
                            ShapeView::Any
                        },
                ),
            },
        }
    }
}

/// A record whose fields may hold anything.
pub open spec fn flat(names: Seq<Seq<char>>) -> ShapeView {
    ShapeView::Record { names, shapes: Seq::new(names.len(), |i: int| ShapeView::Any) }
}

/// A record whose fields may hold anything.
pub(crate) fn flat_record(names: Vec<String>) -> (shape: Shape)
    ensures
        shape.wf(),
        shape@ == flat(text::views(names@)),
{
    let mut shapes: Vec<Shape> = Vec::new();
    let mut i: usize = 0;
    while i < names.len()
        invariant
            i <= names@.len(),
            shapes@.len() == i,
            forall|k: int| 0 <= k < i ==> #[trigger] shapes@[k] == Shape::Any,
        decreases names@.len() - i,
    {
        shapes.push(Shape::Any);
        i = i + 1;
    }
    let shape = Shape::Record { names, shapes };
    proof {
        reveal_with_fuel(Shape::view, 2);
        reveal_with_fuel(Shape::wf, 2);
        assert(shape@->shapes =~= flat(text::views(names@))->shapes);
    }
    shape
}

// ---------------------------------------------------------------------------
// Where values end
// ---------------------------------------------------------------------------

/// What comes first when `serde_json` takes a text for a stream of values: the
/// text up to the end of the first one, blanks before it included, and the text
/// behind it.
pub uninterp spec fn first_json(text: Seq<char>) -> Option<(Seq<char>, Seq<char>)>;

/// A value that is written out, and the text behind it.
#[verifier::ext_equal]
pub struct Leading {
    pub value: Written,
    pub rest: Seq<char>,
}

impl Leading {
    pub open spec fn text(self) -> Seq<char> {
        json::value_text(self.value) + self.rest
    }

    /// The text behind the value opens with what may stand there.
    pub open spec fn delimited(self) -> bool {
        opens(self.rest, ',') || opens(self.rest, ':') || opens(self.rest, '}') || opens(
            self.rest,
            ']',
        )
    }
}

/// The first item of `serde_json::Deserializer::into_iter` over a text, taken as
/// `serde::de::IgnoredAny`, which checks the form of a value and nothing of what
/// it holds, and `serde_json::StreamDeserializer::byte_offset` behind it: a
/// function of the text alone. The two parts make up the text, and the first is
/// not empty. A text, an unsigned number or a list of texts that is written out
/// ends where it was written to, and a text opens with a quotation mark.
#[verifier::external_body]
fn split_first<'a>(text: &'a str) -> (parts: Option<(&'a str, &'a str)>)
    ensures
        match parts {
            Some((value, rest)) => first_json(text@) == Some((value@, rest@)) && text@ == value@
                + rest@ && value@.len() > 0 && forall|leading: Leading|
                text@ == #[trigger] leading.text() && leading.delimited() ==> value@
                    == json::value_text(leading.value) && rest@ == leading.rest && (leading.value
                    is Text ==> opens(value@, '"')),
            None => first_json(text@) is None && forall|leading: Leading|
                text@ == #[trigger] leading.text() ==> !leading.delimited(),
        },
{
    let mut values = serde_json::Deserializer::from_str(text).into_iter::<serde::de::IgnoredAny>();
    match values.next() {
        Some(Ok(_)) => Some(text.split_at(values.byte_offset())),
        _ => None,
    }
}

/// The blanks that may stand between values.
pub open spec fn is_blank(c: char) -> bool {
    c == ' ' || c == '\n' || c == '\t' || c == '\r'
}

/// A text without the blanks it opens with.
pub open spec fn unblanked(text: Seq<char>) -> Seq<char>
    decreases text.len(),
{
    if text.len() > 0 && is_blank(text[0]) {
        unblanked(text.skip(1))
    } else {
        text
    }
}

/// Whether a text opens with a character.
pub open spec fn opens(text: Seq<char>, c: char) -> bool {
    text.len() > 0 && text[0] == c
}

fn starts(text: &str, c: char) -> (yes: bool)
    ensures
        yes == opens(text@, c),
{
    !text.is_empty() && text.get_char(0) == c
}

/// The text behind its first character.
fn behind<'a>(text: &'a str) -> (rest: &'a str)
    requires
        text@.len() > 0,
    ensures
        rest@ == text@.skip(1),
{
    text.substring_char(1, text.unicode_len())
}

fn unblank<'a>(text: &'a str) -> (rest: &'a str)
    ensures
        rest@ == unblanked(text@),
        rest@.len() <= text@.len(),
{
    let mut rest: &'a str = text;
    while !rest.is_empty() && (rest.get_char(0) == ' ' || rest.get_char(0) == '\n'
        || rest.get_char(0) == '\t' || rest.get_char(0) == '\r')
        invariant
            unblanked(rest@) == unblanked(text@),
            rest@.len() <= text@.len(),
        decreases rest@.len(),
    {
        rest = behind(rest);
    }
    rest
}

// ---------------------------------------------------------------------------
// Lists and objects
// ---------------------------------------------------------------------------

/// The elements from here to the end of a list, each as it is written. `first`
/// says that none stands before.
pub open spec fn elements_from(text: Seq<char>, first: bool) -> Option<Seq<Seq<char>>>
    decreases text.len(),
{
    let at = unblanked(text);
    if opens(at, ']') {
        if unblanked(at.skip(1)).len() == 0 {
            Some(Seq::empty())
        } else {
            None
        }
    } else if !first && !opens(at, ',') {
        None
    } else {
        let from = if first {
            at
        } else {
            at.skip(1)
        };
        match first_json(from) {
            None => None,
            Some((value, rest)) => if rest.len() < text.len() {
                match elements_from(rest, false) {
                    None => None,
                    Some(more) => Some(seq![value] + more),
                }
            } else {
                None
            },
        }
    }
}

/// The elements of a list, each as it is written; nothing where the text is no
/// list.
pub open spec fn elements_in(text: Seq<char>) -> Option<Seq<Seq<char>>> {
    let at = unblanked(text);
    if opens(at, '[') {
        elements_from(at.skip(1), true)
    } else {
        None
    }
}

/// The members from here to the end of an object: the key and the value of each
/// as they are written. `first` says that none stands before.
pub open spec fn members_from(text: Seq<char>, first: bool) -> Option<Seq<(Seq<char>, Seq<char>)>>
    decreases text.len(),
{
    let at = unblanked(text);
    if opens(at, '}') {
        if unblanked(at.skip(1)).len() == 0 {
            Some(Seq::empty())
        } else {
            None
        }
    } else if !first && !opens(at, ',') {
        None
    } else {
        let from = if first {
            text
        } else {
            at.skip(1)
        };
        match first_json(from) {
            None => None,
            Some((before, rest)) => {
                let key = unblanked(before);
                let colon = unblanked(rest);
                if !opens(key, '"') || !opens(colon, ':') {
                    None
                } else {
                    match first_json(colon.skip(1)) {
                        None => None,
                        Some((value, rest)) => if rest.len() < text.len() {
                            match members_from(rest, false) {
                                None => None,
                                Some(more) => Some(seq![(key, value)] + more),
                            }
                        } else {
                            None
                        },
                    }
                }
            },
        }
    }
}

/// The members of an object, key and value as they are written; nothing where
/// the text is no object.
pub open spec fn members_in(text: Seq<char>) -> Option<Seq<(Seq<char>, Seq<char>)>> {
    let at = unblanked(text);
    if opens(at, '{') {
        members_from(at.skip(1), true)
    } else {
        None
    }
}

/// The elements of a list.
fn elements<'a>(text: &'a str) -> (items: Option<Vec<&'a str>>)
    ensures
        match items {
            Some(items) => elements_in(text@) == Some(strs_view(items@)),
            None => elements_in(text@) is None,
        },
{
    let at: &'a str = unblank(text);
    if !starts(at, '[') {
        return None;
    }
    let mut rest: &'a str = behind(at);
    let mut first: bool = true;
    let mut items: Vec<&'a str> = Vec::new();
    let ghost all = elements_from(rest@, true);
    assert(strs_view(items@) =~= Seq::<Seq<char>>::empty());
    proof {
        if let Some(more) = all {
            assert(Seq::<Seq<char>>::empty() + more =~= more);
        }
    }
    loop
        invariant
            elements_in(text@) == all,
            match elements_from(rest@, first) {
                Some(more) => all == Some(strs_view(items@) + more),
                None => all is None,
            },
        decreases rest@.len(),
    {
        let from: &'a str = unblank(rest);
        if starts(from, ']') {
            if unblank(behind(from)).is_empty() {
                assert(strs_view(items@) + Seq::<Seq<char>>::empty() =~= strs_view(items@));
                return Some(items);
            }
            return None;
        }
        let value: &'a str = if first {
            from
        } else if starts(from, ',') {
            behind(from)
        } else {
            return None;
        };
        match split_first(value) {
            Some((item, after)) => {
                let ghost before = strs_view(items@);
                items.push(item);
                proof {
                    assert(value@.len() == item@.len() + after@.len());
                    assert(strs_view(items@) =~= before.push(item@));
                    if let Some(more) = elements_from(after@, false) {
                        assert(before + (seq![item@] + more) =~= strs_view(items@) + more);
                    }
                }
                rest = after;
                first = false;
            },
            None => {
                return None;
            },
        }
    }
}

pub open spec fn strs_view(strs: Seq<&str>) -> Seq<Seq<char>> {
    strs.map_values(|s: &str| s@)
}

pub open spec fn pairs_view(pairs: Seq<(&str, &str)>) -> Seq<(Seq<char>, Seq<char>)> {
    pairs.map_values(|pair: (&str, &str)| (pair.0@, pair.1@))
}

/// What is written of an object behind its first `n` members, its end included.
spec fn members_rest(members: Seq<Member>, n: int) -> Seq<char>
    decreases members.len() - n,
{
    if n >= members.len() {
        "}"@
    } else {
        (if n > 0 {
            ","@
        } else {
            ""@
        }) + json::json_string(members[n].key) + ":"@ + json::value_text(members[n].value)
            + members_rest(members, n + 1)
    }
}

proof fn lemma_members_rest(members: Seq<Member>, n: int)
    requires
        0 <= n <= members.len(),
    ensures
        json::members_text(members, n) + members_rest(members, n) == json::members_text(
            members,
            members.len() as int,
        ) + "}"@,
    decreases members.len() - n,
{
    if n < members.len() {
        lemma_members_rest(members, n + 1);
        assert(json::members_text(members, n) + members_rest(members, n) =~= json::members_text(
            members,
            n + 1,
        ) + members_rest(members, n + 1));
    }
}

/// The text of an object is its opening, and then its members and its end.
proof fn lemma_object_text(members: Seq<Member>)
    ensures
        json::object_text(members) == "{"@ + members_rest(members, 0),
        "{"@ == seq!['{'],
        "}"@ == seq!['}'],
        ","@ == seq![','],
        ":"@ == seq![':'],
        ""@ == Seq::<char>::empty(),
{
    reveal_strlit("{");
    reveal_strlit("}");
    reveal_strlit(",");
    reveal_strlit(":");
    reveal_strlit("");
    assert("{"@ =~= seq!['{']);
    assert("}"@ =~= seq!['}']);
    assert(","@ =~= seq![',']);
    assert(":"@ =~= seq![':']);
    assert(""@ =~= Seq::<char>::empty());
    lemma_members_rest(members, 0);
    assert(json::object_text(members) =~= "{"@ + (json::members_text(
        members,
        members.len() as int,
    ) + "}"@));
    assert(json::members_text(members, 0) + members_rest(members, 0) =~= members_rest(members, 0));
}

/// What has been taken off the text of an object agrees with what was written.
spec fn agrees(written: Seq<Member>, pairs: Seq<(Seq<char>, Seq<char>)>) -> bool {
    &&& pairs.len() <= written.len()
    &&& forall|i: int|
        0 <= i < pairs.len() ==> (#[trigger] pairs[i]).0 == json::json_string(written[i].key)
            && pairs[i].1 == json::value_text(written[i].value)
}

/// The members of an object, key and value as they are written. The text of an
/// object that is written out holds the members it was written with.
fn members<'a>(text: &'a str) -> (pairs: Option<Vec<(&'a str, &'a str)>>)
    ensures
        match pairs {
            Some(pairs) => members_in(text@) == Some(pairs_view(pairs@)) && forall|
                written: Seq<Member>,
            |
                text@ == #[trigger] json::object_text(written) ==> pairs@.len() == written.len()
                    && agrees(written, pairs_view(pairs@)),
            None => members_in(text@) is None && forall|written: Seq<Member>|
                text@ != #[trigger] json::object_text(written),
        },
{
    proof {
        assert forall|written: Seq<Member>|
            text@ == #[trigger] json::object_text(written) implies unblanked(text@) == text@
            && opens(text@, '{') && text@.skip(1) == members_rest(written, 0) by {
            lemma_object_text(written);
            assert(text@.skip(1) =~= members_rest(written, 0));
        }
    }
    let at: &'a str = unblank(text);
    if !starts(at, '{') {
        return None;
    }
    let mut rest: &'a str = behind(at);
    let mut first: bool = true;
    let mut pairs: Vec<(&'a str, &'a str)> = Vec::new();
    let ghost all = members_from(rest@, true);
    assert(pairs_view(pairs@) =~= Seq::<(Seq<char>, Seq<char>)>::empty());
    proof {
        if let Some(more) = all {
            assert(Seq::<(Seq<char>, Seq<char>)>::empty() + more =~= more);
        }
    }
    loop
        invariant
            members_in(text@) == all,
            first == (pairs@.len() == 0),
            match members_from(rest@, first) {
                Some(more) => all == Some(pairs_view(pairs@) + more),
                None => all is None,
            },
            forall|written: Seq<Member>|
                text@ == #[trigger] json::object_text(written) ==> agrees(
                    written,
                    pairs_view(pairs@),
                ) && rest@ == members_rest(written, pairs@.len() as int),
        decreases rest@.len(),
    {
        let ghost taken = pairs_view(pairs@);
        let ghost n = pairs@.len() as int;
        let from: &'a str = unblank(rest);
        let next: &'a str = if first {
            rest
        } else if starts(from, ',') {
            behind(from)
        } else {
            from
        };
        // The next key, where the object does not end here.
        let split: Option<(&'a str, &'a str)> = split_first(next);
        proof {
            assert forall|written: Seq<Member>|
                text@ == #[trigger] json::object_text(written) implies if n < written.len() {
                let leading = key_at(written, n);
                &&& next@ == leading.text()
                &&& leading.delimited()
                &&& split matches Some((key, after)) && key@ == json::json_string(written[n].key)
                    && after@ == leading.rest && opens(key@, '"') && !opens(from@, '}') && (first
                    || opens(from@, ','))
            } else {
                from@ == seq!['}']
            } by {
                lemma_object_text(written);
                lemma_next_key(written, n);
                if n < written.len() {
                    assert(next@ =~= key_at(written, n).text());
                }
            }
        }
        if starts(from, '}') {
            if unblank(behind(from)).is_empty() {
                assert(taken + Seq::<(Seq<char>, Seq<char>)>::empty() =~= taken);
                return Some(pairs);
            }
            return None;
        }
        if !first && !starts(from, ',') {
            return None;
        }
        match split {
            Some((before, after)) => {
                let key: &'a str = unblank(before);
                let colon: &'a str = unblank(after);
                proof {
                    assert(next@.len() == before@.len() + after@.len());
                    assert forall|written: Seq<Member>|
                        text@ == #[trigger] json::object_text(written) implies n < written.len()
                        && opens(key@, '"') && key@ == json::json_string(written[n].key) && opens(
                        colon@,
                        ':',
                    ) && colon@.skip(1) == value_at(written, n).text() && value_at(
                        written,
                        n,
                    ).delimited() by {
                        lemma_object_text(written);
                        lemma_next_key(written, n);
                        assert(opens(from@, '}') || n < written.len());
                        assert(colon@.skip(1) =~= value_at(written, n).text());
                    }
                }
                if !starts(key, '"') || !starts(colon, ':') {
                    return None;
                }
                match split_first(behind(colon)) {
                    Some((value, more)) => {
                        pairs.push((key, value));
                        proof {
                            assert(colon@.skip(1).len() == value@.len() + more@.len());
                            assert(pairs_view(pairs@) =~= taken.push((key@, value@)));
                            if let Some(others) = members_from(more@, false) {
                                assert(taken + (seq![(key@, value@)] + others) =~= pairs_view(
                                    pairs@,
                                ) + others);
                            }
                            assert forall|written: Seq<Member>|
                                text@ == #[trigger] json::object_text(written) implies agrees(
                                written,
                                pairs_view(pairs@),
                            ) && more@ == members_rest(written, n + 1) by {
                                lemma_object_text(written);
                                lemma_next_key(written, n);
                                let leading = value_at(written, n);
                                assert(colon@.skip(1) =~= leading.text());
                                assert(leading.delimited());
                                let now = pairs_view(pairs@);
                                assert forall|i: int| 0 <= i < now.len() implies (
                                #[trigger] now[i]).0 == json::json_string(written[i].key)
                                    && now[i].1 == json::value_text(written[i].value) by {
                                    if i < n {
                                        assert(now[i] == taken[i]);
                                    }
                                }
                            }
                        }
                        rest = more;
                        first = false;
                    },
                    None => {
                        return None;
                    },
                }
            },
            None => {
                return None;
            },
        }
    }
}

/// The key of a member that is written out, and what stands behind it.
spec fn key_at(members: Seq<Member>, n: int) -> Leading {
    Leading {
        value: Written::Text(members[n].key),
        rest: ":"@ + json::value_text(members[n].value) + members_rest(members, n + 1),
    }
}

/// The value of a member that is written out, and what stands behind it.
spec fn value_at(members: Seq<Member>, n: int) -> Leading {
    Leading { value: members[n].value, rest: members_rest(members, n + 1) }
}

proof fn lemma_next_key(members: Seq<Member>, n: int)
    requires
        0 <= n <= members.len(),
        "}"@ == seq!['}'],
        ","@ == seq![','],
        ":"@ == seq![':'],
        ""@ == Seq::<char>::empty(),
    ensures
        n == members.len() ==> members_rest(members, n) == seq!['}'],
        n < members.len() && n == 0 ==> members_rest(members, n) == key_at(members, n).text(),
        n < members.len() && n > 0 ==> members_rest(members, n) == seq![','] + key_at(
            members,
            n,
        ).text(),
        n < members.len() ==> key_at(members, n).delimited() && value_at(members, n).delimited()
            && key_at(members, n).rest == seq![':'] + value_at(members, n).text(),
{
    if n < members.len() {
        let key = key_at(members, n);
        let value = value_at(members, n);
        assert(key.rest =~= seq![':'] + value.text());
        if n == 0 {
            assert(members_rest(members, n) =~= key.text());
        } else {
            assert(members_rest(members, n) =~= seq![','] + key.text());
        }
        assert(opens(members_rest(members, n + 1), ',') || opens(
            members_rest(members, n + 1),
            '}',
        ));
    }
}

// ---------------------------------------------------------------------------
// Cutting down
// ---------------------------------------------------------------------------

/// What a key is, as it is written.
pub open spec fn key_of(key: Seq<char>) -> Option<Seq<char>> {
    json::text_of(json::parsed_json(key))
}

/// The place of a name, from some place on.
pub open spec fn place_of(names: Seq<Seq<char>>, name: Seq<char>, from: int) -> Option<int>
    decreases names.len() - from,
{
    if from < 0 || from >= names.len() {
        None
    } else if names[from] == name {
        Some(from)
    } else {
        place_of(names, name, from + 1)
    }
}

/// Whether one of the first `n` members has a key.
pub open spec fn has_key(pairs: Seq<(Seq<char>, Seq<char>)>, key: Seq<char>, n: int) -> bool {
    exists|i: int| 0 <= i < n && key_of((#[trigger] pairs[i]).0) == Some(key)
}

/// What stands between what is kept and what comes next.
pub open spec fn comma(before: Seq<char>) -> Seq<char> {
    if before.len() == 0 {
        ""@
    } else {
        ","@
    }
}

/// A text cut down to what a shape speaks of: the members that a record knows,
/// and no others. Nothing where a list or an object is not written as one, or
/// where an object names a known member twice. What is no record where one is
/// expected is left as it is.
pub open spec fn pruned(text: Seq<char>, shape: ShapeView) -> Option<Seq<char>>
    decreases shape, 0int,
{
    match shape {
        ShapeView::Any => Some(text),
        ShapeView::List(inner) => if opens(unblanked(text), '[') {
            match elements_in(text) {
                Some(items) => match pruned_list(items, *inner, items.len() as int) {
                    Some(kept) => Some("["@ + kept + "]"@),
                    None => None,
                },
                None => None,
            }
        } else {
            Some(text)
        },
        ShapeView::Record { names, shapes } => if opens(unblanked(text), '{') {
            match members_in(text) {
                Some(pairs) => match pruned_members(pairs, names, shapes, pairs.len() as int) {
                    Some(kept) => Some("{"@ + kept + "}"@),
                    None => None,
                },
                None => None,
            }
        } else if opens(unblanked(text), '[') {
            match elements_in(text) {
                Some(items) => match pruned_fields(items, shapes, items.len() as int) {
                    Some(kept) => Some("["@ + kept + "]"@),
                    None => None,
                },
                None => None,
            }
        } else {
            Some(text)
        },
    }
}

/// The first `n` elements of a list, each cut down.
pub open spec fn pruned_list(items: Seq<Seq<char>>, shape: ShapeView, n: int) -> Option<Seq<char>>
    decreases shape, n,
{
    if n <= 0 {
        Some(Seq::empty())
    } else {
        match (pruned_list(items, shape, n - 1), pruned(items[n - 1], shape)) {
            (Some(before), Some(item)) => Some(before + comma(before) + item),
            _ => None,
        }
    }
}

/// The first `n` fields of a record that is written as a list, each cut down.
pub open spec fn pruned_fields(items: Seq<Seq<char>>, shapes: Seq<ShapeView>, n: int) -> Option<
    Seq<char>,
>
    decreases shapes, n,
{
    if n <= 0 {
        Some(Seq::empty())
    } else {
        let field = if n <= shapes.len() {
            pruned(items[n - 1], shapes[n - 1])
        } else {
            Some(items[n - 1])
        };
        match (pruned_fields(items, shapes, n - 1), field) {
            (Some(before), Some(item)) => Some(before + comma(before) + item),
            _ => None,
        }
    }
}

/// Those of the first `n` members that a record knows, each cut down.
pub open spec fn pruned_members(
    pairs: Seq<(Seq<char>, Seq<char>)>,
    names: Seq<Seq<char>>,
    shapes: Seq<ShapeView>,
    n: int,
) -> Option<Seq<char>>
    decreases shapes, n,
{
    if n <= 0 {
        Some(Seq::empty())
    } else {
        let pair = pairs[n - 1];
        match (pruned_members(pairs, names, shapes, n - 1), key_of(pair.0)) {
            (Some(before), Some(key)) => match place_of(names, key, 0) {
                Some(place) => if has_key(pairs, key, n - 1) {
                    None
                } else if 0 <= place < shapes.len() {
                    match pruned(pair.1, shapes[place]) {
                        Some(value) => Some(
                            before + comma(before) + pair.0 + ":"@ + value,
                        ),
                        None => None,
                    }
                } else {
                    None
                },
                None => Some(before),
            },
            _ => None,
        }
    }
}

/// The value of a text that is cut down to a shape.
pub open spec fn shaped(text: Seq<char>, shape: ShapeView) -> Option<Json> {
    match pruned(text, shape) {
        Some(kept) => json::parsed_json(kept),
        None => None,
    }
}

impl Shape {
    /// Every record has as many shapes as names.
    pub open spec fn wf(&self) -> bool
        decreases self,
    {
        match self {
            Shape::Any => true,
            Shape::List(inner) => inner.wf(),
            Shape::Record { names, shapes } => names@.len() == shapes@.len() && forall|i: int|
                0 <= i < shapes@.len() ==> (#[trigger] shapes@[i]).wf(),
        }
    }
}

/// Whether every member that is written is one that a record knows and takes as
/// it is, and none is written twice.
pub open spec fn fits(written: Seq<Member>, shape: ShapeView) -> bool {
    &&& shape matches ShapeView::Record { names, shapes } && forall|i: int|
        0 <= i < written.len() ==> (place_of(names, (#[trigger] written[i]).key, 0) matches Some(
            place,
        ) && 0 <= place < shapes.len() && shapes[place] is Any)
    &&& forall|i: int, j: int|
        0 <= i < j < written.len() ==> (#[trigger] written[i]).key != (#[trigger] written[j]).key
}

fn find_name(names: &Vec<String>, name: &str) -> (place: Option<usize>)
    ensures
        match place {
            Some(place) => place < names@.len() && place_of(text::views(names@), name@, 0) == Some(
                place as int,
            ),
            None => place_of(text::views(names@), name@, 0) is None,
        },
{
    let ghost all = text::views(names@);
    let mut i: usize = 0;
    while i < names.len()
        invariant
            i <= names@.len(),
            all == text::views(names@),
            place_of(all, name@, 0) == place_of(all, name@, i as int),
        decreases names@.len() - i,
    {
        assert(all[i as int] == names@[i as int]@);
        if text::same(names[i].as_str(), name) {
            return Some(i);
        }
        i = i + 1;
    }
    None
}

/// What a key is, as it is written.
fn read_key(key: &str) -> (name: Option<String>)
    ensures
        match name {
            Some(name) => key_of(key@) == Some(name@),
            None => key_of(key@) is None,
        },
        forall|written: Written|
            key@ == #[trigger] json::value_text(written) && written is Text ==> (
            name matches Some(name) && name@ == written->Text_0),
{
    match json::read(key) {
        Ok(value) => match json::string(&value) {
            Some(name) => Some(name.to_owned()),
            None => None,
        },
        Err(_) => None,
    }
}

fn add_comma(out: &mut String)
    ensures
        final(out)@ == old(out)@ + comma(old(out)@),
{
    if out.as_str().is_empty() {
        out.append("");
    } else {
        out.append(",");
    }
}

fn enclosed(open: &str, kept: &str, close: &str) -> (out: String)
    ensures
        out@ == open@ + kept@ + close@,
{
    let mut out: String = open.to_owned();
    out.append(kept);
    out.append(close);
    out
}

/// Cut a text down to what a shape speaks of. An object that is written out with
/// known members, each once, stays as it is.
fn prune(text: &str, shape: &Shape) -> (kept: Option<String>)
    requires
        shape.wf(),
    ensures
        match kept {
            Some(kept) => pruned(text@, shape@) == Some(kept@),
            None => pruned(text@, shape@) is None,
        },
        forall|written: Seq<Member>|
            text@ == #[trigger] json::object_text(written) && fits(written, shape@) ==> (
            kept matches Some(kept) && kept@ == text@),
    decreases shape, 0int,
{
    match shape {
        Shape::Any => Some(text.to_owned()),
        Shape::List(inner) => {
            if !starts(unblank(text), '[') {
                return Some(text.to_owned());
            }
            match elements(text) {
                Some(items) => match prune_list(items.as_slice(), inner) {
                    Some(kept) => Some(enclosed("[", kept.as_str(), "]")),
                    None => None,
                },
                None => None,
            }
        },
        Shape::Record { names, shapes } => {
            let at: &str = unblank(text);
            proof {
                assert(shape@ == (ShapeView::Record {
                    names: text::views(names@),
                    shapes: shapes_view(shapes@),
                })) by {
                    assert(shape@->shapes =~= shapes_view(shapes@));
                }
                assert forall|written: Seq<Member>|
                    text@ == #[trigger] json::object_text(written) implies opens(at@, '{') by {
                    lemma_object_text(written);
                }
            }
            if starts(at, '{') {
                match members(text) {
                    Some(pairs) => match prune_members(pairs.as_slice(), names, shapes) {
                        Some(kept) => Some(enclosed("{", kept.as_str(), "}")),
                        None => None,
                    },
                    None => None,
                }
            } else if starts(at, '[') {
                match elements(text) {
                    Some(items) => match prune_fields(items.as_slice(), shapes) {
                        Some(kept) => Some(enclosed("[", kept.as_str(), "]")),
                        None => None,
                    },
                    None => None,
                }
            } else {
                Some(text.to_owned())
            }
        },
    }
}

fn prune_list(items: &[&str], shape: &Shape) -> (kept: Option<String>)
    requires
        shape.wf(),
    ensures
        match kept {
            Some(kept) => pruned_list(strs_view(items@), shape@, items@.len() as int) == Some(
                kept@,
            ),
            None => pruned_list(strs_view(items@), shape@, items@.len() as int) is None,
        },
    decreases shape, 1int,
{
    let ghost all = strs_view(items@);
    let mut out: String = String::new();
    let mut i: usize = 0;
    assert(out@ =~= Seq::<char>::empty());
    while i < items.len()
        invariant
            i <= items@.len(),
            all == strs_view(items@),
            shape.wf(),
            pruned_list(all, shape@, i as int) == Some(out@),
        decreases items@.len() - i,
    {
        assert(all[i as int] == items@[i as int]@);
        match prune(items[i], shape) {
            Some(item) => {
                add_comma(&mut out);
                out.append(item.as_str());
            },
            None => {
                proof {
                    lemma_list_refused(all, shape@, i + 1, all.len() as int);
                }
                return None;
            },
        }
        i = i + 1;
    }
    Some(out)
}

fn prune_fields(items: &[&str], shapes: &Vec<Shape>) -> (kept: Option<String>)
    requires
        forall|i: int| 0 <= i < shapes@.len() ==> (#[trigger] shapes@[i]).wf(),
    ensures
        match kept {
            Some(kept) => pruned_fields(
                strs_view(items@),
                shapes_view(shapes@),
                items@.len() as int,
            ) == Some(kept@),
            None => pruned_fields(
                strs_view(items@),
                shapes_view(shapes@),
                items@.len() as int,
            ) is None,
        },
    decreases shapes, 1int,
{
    let ghost all = strs_view(items@);
    let ghost views = shapes_view(shapes@);
    let mut out: String = String::new();
    let mut i: usize = 0;
    assert(out@ =~= Seq::<char>::empty());
    while i < items.len()
        invariant
            i <= items@.len(),
            all == strs_view(items@),
            views == shapes_view(shapes@),
            forall|k: int| 0 <= k < shapes@.len() ==> (#[trigger] shapes@[k]).wf(),
            pruned_fields(all, views, i as int) == Some(out@),
        decreases items@.len() - i,
    {
        assert(all[i as int] == items@[i as int]@);
        let field: Option<String> = if i < shapes.len() {
            prune(items[i], &shapes[i])
        } else {
            Some(items[i].to_owned())
        };
        match field {
            Some(item) => {
                add_comma(&mut out);
                out.append(item.as_str());
            },
            None => {
                proof {
                    lemma_fields_refused(all, views, i + 1, all.len() as int);
                }
                return None;
            },
        }
        i = i + 1;
    }
    Some(out)
}

fn prune_members(pairs: &[(&str, &str)], names: &Vec<String>, shapes: &Vec<Shape>) -> (kept:
    Option<String>)
    requires
        names@.len() == shapes@.len(),
        forall|i: int| 0 <= i < shapes@.len() ==> (#[trigger] shapes@[i]).wf(),
    ensures
        match kept {
            Some(kept) => pruned_members(
                pairs_view(pairs@),
                text::views(names@),
                shapes_view(shapes@),
                pairs@.len() as int,
            ) == Some(kept@),
            None => pruned_members(
                pairs_view(pairs@),
                text::views(names@),
                shapes_view(shapes@),
                pairs@.len() as int,
            ) is None,
        },
        forall|written: Seq<Member>|
            pairs@.len() == written.len() && #[trigger] agrees(written, pairs_view(pairs@)) && fits(
                written,
                ShapeView::Record { names: text::views(names@), shapes: shapes_view(shapes@) },
            ) ==> (kept matches Some(kept) && kept@ == json::members_text(
                written,
                written.len() as int,
            )),
    decreases shapes, 1int,
{
    let ghost all = pairs_view(pairs@);
    let ghost known = text::views(names@);
    let ghost views = shapes_view(shapes@);
    let ghost shape = ShapeView::Record { names: known, shapes: views };
    let mut out: String = String::new();
    let mut keys: Vec<String> = Vec::new();
    let mut i: usize = 0;
    assert(out@ =~= Seq::<char>::empty());
    while i < pairs.len()
        invariant
            i <= pairs@.len(),
            all == pairs_view(pairs@),
            known == text::views(names@),
            views == shapes_view(shapes@),
            shape == (ShapeView::Record { names: known, shapes: views }),
            names@.len() == shapes@.len(),
            forall|k: int| 0 <= k < shapes@.len() ==> (#[trigger] shapes@[k]).wf(),
            keys@.len() == i,
            forall|k: int| 0 <= k < i ==> key_of((#[trigger] all[k]).0) == Some(keys@[k]@),
            pruned_members(all, known, views, i as int) == Some(out@),
            forall|written: Seq<Member>|
                pairs@.len() == written.len() && #[trigger] agrees(written, all) && fits(
                    written,
                    shape,
                ) ==> out@ == json::members_text(written, i as int) && forall|k: int|
                    0 <= k < i ==> (#[trigger] keys@[k])@ == written[k].key,
        decreases pairs@.len() - i,
    {
        let pair: (&str, &str) = pairs[i];
        assert(all[i as int] == (pair.0@, pair.1@));
        let ghost before = out@;
        let name: Option<String> = read_key(pair.0);
        proof {
            assert forall|written: Seq<Member>|
                pairs@.len() == written.len() && #[trigger] agrees(written, all) && fits(
                    written,
                    shape,
                ) implies name matches Some(name) && name@ == written[i as int].key by {
                assert(all[i as int].0 == json::value_text(Written::Text(written[i as int].key)));
            }
        }
        let key: String = match name {
            Some(key) => key,
            None => {
                proof {
                    lemma_members_refused(all, known, views, i + 1, all.len() as int);
                }
                return None;
            },
        };
        match find_name(names, key.as_str()) {
            Some(place) => {
                let repeated: bool = text::holds(keys.as_slice(), key.as_str());
                proof {
                    lemma_has_key(all, keys@, key@, i as int);
                }
                if repeated {
                    proof {
                        lemma_members_refused(all, known, views, i + 1, all.len() as int);
                    }
                    return None;
                }
                match prune(pair.1, &shapes[place]) {
                    Some(value) => {
                        add_comma(&mut out);
                        out.append(pair.0);
                        out.append(":");
                        out.append(value.as_str());
                    },
                    None => {
                        proof {
                            lemma_members_refused(all, known, views, i + 1, all.len() as int);
                        }
                        return None;
                    },
                }
            },
            None => {},
        }
        let ghost earlier = keys@;
        keys.push(key);
        proof {
            assert forall|written: Seq<Member>|
                pairs@.len() == written.len() && #[trigger] agrees(written, all) && fits(
                    written,
                    shape,
                ) implies out@ == json::members_text(written, i + 1) && forall|k: int|
                0 <= k < i + 1 ==> (#[trigger] keys@[k])@ == written[k].key by {
                json::lemma_members_text(written, i as int);
                assert(all[i as int].1 == json::value_text(written[i as int].value));
                assert(place_of(known, written[i as int].key, 0) is Some);
                assert(out@ =~= json::members_text(written, i + 1));
                assert forall|k: int| 0 <= k < i + 1 implies (#[trigger] keys@[k])@
                    == written[k].key by {
                    if k < i {
                        assert(keys@[k] == earlier[k]);
                    }
                }
            }
        }
        i = i + 1;
    }
    Some(out)
}

pub open spec fn shapes_view(shapes: Seq<Shape>) -> Seq<ShapeView> {
    Seq::new(
        shapes.len(),
        |i: int|
            if 0 <= i < shapes.len() {
                shapes[i].view()
            } else {
                ShapeView::Any
            },
    )
}

proof fn lemma_list_refused(items: Seq<Seq<char>>, shape: ShapeView, n: int, m: int)
    requires
        n <= m,
        pruned_list(items, shape, n) is None,
    ensures
        pruned_list(items, shape, m) is None,
    decreases m,
{
    if n < m && m > 0 {
        lemma_list_refused(items, shape, n, m - 1);
    }
}

proof fn lemma_fields_refused(items: Seq<Seq<char>>, shapes: Seq<ShapeView>, n: int, m: int)
    requires
        n <= m,
        pruned_fields(items, shapes, n) is None,
    ensures
        pruned_fields(items, shapes, m) is None,
    decreases m,
{
    if n < m && m > 0 {
        lemma_fields_refused(items, shapes, n, m - 1);
    }
}

proof fn lemma_members_refused(
    pairs: Seq<(Seq<char>, Seq<char>)>,
    names: Seq<Seq<char>>,
    shapes: Seq<ShapeView>,
    n: int,
    m: int,
)
    requires
        n <= m,
        pruned_members(pairs, names, shapes, n) is None,
    ensures
        pruned_members(pairs, names, shapes, m) is None,
    decreases m,
{
    if n < m && m > 0 {
        lemma_members_refused(pairs, names, shapes, n, m - 1);
    }
}

proof fn lemma_has_key(
    pairs: Seq<(Seq<char>, Seq<char>)>,
    keys: Seq<String>,
    key: Seq<char>,
    n: int,
)
    requires
        keys.len() == n,
        forall|k: int| 0 <= k < n ==> key_of((#[trigger] pairs[k]).0) == Some(keys[k]@),
    ensures
        has_key(pairs, key, n) <==> text::views(keys).contains(key),
{
    let views = text::views(keys);
    if has_key(pairs, key, n) {
        let k = choose|k: int| 0 <= k < n && key_of((#[trigger] pairs[k]).0) == Some(key);
        assert(views[k] == key);
    }
    if views.contains(key) {
        let k = choose|k: int| 0 <= k < views.len() && views[k] == key;
        assert(key_of(pairs[k].0) == Some(keys[k]@));
    }
}

/// Read a text that is cut down to a shape. An object that is written out with
/// known members, each once, is read as that object.
pub(crate) fn read_shaped(text: &str, shape: &Shape) -> (value: Option<Value>)
    requires
        shape.wf(),
    ensures
        match value {
            Some(value) => shaped(text@, shape@) == Some(json::json(value)),
            None => shaped(text@, shape@) is None,
        },
        forall|written: Seq<Member>|
            text@ == #[trigger] json::object_text(written) && fits(written, shape@) ==> (
            value matches Some(value) && json::json(value) == json::object_of(written)),
{
    match prune(text, shape) {
        Some(kept) => match json::read(kept.as_str()) {
            Ok(value) => Some(value),
            Err(_) => None,
        },
        None => None,
    }
}

// ---------------------------------------------------------------------------
// Laws
// ---------------------------------------------------------------------------

/// An object that names a known member twice is refused, whatever the two hold.
pub proof fn a_known_member_is_named_once(
    text: Seq<char>,
    names: Seq<Seq<char>>,
    shapes: Seq<ShapeView>,
    pairs: Seq<(Seq<char>, Seq<char>)>,
    i: int,
    j: int,
)
    requires
        members_in(text) == Some(pairs),
        0 <= i < j < pairs.len(),
        key_of(pairs[i].0) == key_of(pairs[j].0),
        key_of(pairs[j].0) matches Some(key) && place_of(names, key, 0) is Some,
    ensures
        shaped(text, ShapeView::Record { names, shapes }) is None,
{
    let key = key_of(pairs[j].0)->0;
    assert(has_key(pairs, key, j)) by {
        assert(key_of(pairs[i].0) == Some(key));
    }
    assert(pruned_members(pairs, names, shapes, j + 1) is None);
    lemma_members_refused(pairs, names, shapes, j + 1, pairs.len() as int);
}

proof fn lemma_without(
    pairs: Seq<(Seq<char>, Seq<char>)>,
    names: Seq<Seq<char>>,
    shapes: Seq<ShapeView>,
    i: int,
    n: int,
)
    requires
        0 <= i < n <= pairs.len(),
        key_of(pairs[i].0) matches Some(key) && place_of(names, key, 0) is None,
    ensures
        pruned_members(pairs, names, shapes, n) == pruned_members(
            pairs.remove(i),
            names,
            shapes,
            n - 1,
        ),
    decreases n,
{
    let fewer = pairs.remove(i);
    if n == i + 1 {
        lemma_same_start(pairs, fewer, names, shapes, i);
    } else {
        lemma_without(pairs, names, shapes, i, n - 1);
        assert(fewer[n - 2] == pairs[n - 1]);
        if let Some(key) = key_of(pairs[n - 1].0) {
            if place_of(names, key, 0) is Some {
                if has_key(pairs, key, n - 1) {
                    let k = choose|k: int|
                        0 <= k < n - 1 && key_of((#[trigger] pairs[k]).0) == Some(key);
                    if k < i {
                        assert(fewer[k] == pairs[k]);
                    } else {
                        assert(fewer[k - 1] == pairs[k]);
                    }
                }
                if has_key(fewer, key, n - 2) {
                    let k = choose|k: int|
                        0 <= k < n - 2 && key_of((#[trigger] fewer[k]).0) == Some(key);
                    if k < i {
                        assert(pairs[k] == fewer[k]);
                    } else {
                        assert(pairs[k + 1] == fewer[k]);
                    }
                }
            }
        }
    }
}

proof fn lemma_same_start(
    a: Seq<(Seq<char>, Seq<char>)>,
    b: Seq<(Seq<char>, Seq<char>)>,
    names: Seq<Seq<char>>,
    shapes: Seq<ShapeView>,
    n: int,
)
    requires
        n <= a.len(),
        n <= b.len(),
        forall|k: int| 0 <= k < n ==> #[trigger] a[k] == b[k],
    ensures
        pruned_members(a, names, shapes, n) == pruned_members(b, names, shapes, n),
    decreases n,
{
    if n > 0 {
        lemma_same_start(a, b, names, shapes, n - 1);
        assert(a[n - 1] == b[n - 1]);
        if let Some(key) = key_of(a[n - 1].0) {
            if has_key(a, key, n - 1) {
                let k = choose|k: int| 0 <= k < n - 1 && key_of((#[trigger] a[k]).0) == Some(key);
                assert(key_of(b[k].0) == Some(key));
            }
            if has_key(b, key, n - 1) {
                let k = choose|k: int| 0 <= k < n - 1 && key_of((#[trigger] b[k]).0) == Some(key);
                assert(a[k] == b[k]);
                assert(key_of(a[k].0) == Some(key));
            }
        }
    }
}

/// A member that a record does not know decides nothing, whatever it holds and
/// however often it is named: two objects that differ by one are read alike.
pub proof fn an_unknown_member_decides_nothing(
    text: Seq<char>,
    other: Seq<char>,
    names: Seq<Seq<char>>,
    shapes: Seq<ShapeView>,
    pairs: Seq<(Seq<char>, Seq<char>)>,
    i: int,
)
    requires
        members_in(text) == Some(pairs),
        0 <= i < pairs.len(),
        members_in(other) == Some(pairs.remove(i)),
        key_of(pairs[i].0) matches Some(key) && place_of(names, key, 0) is None,
    ensures
        shaped(text, ShapeView::Record { names, shapes }) == shaped(
            other,
            ShapeView::Record { names, shapes },
        ),
{
    lemma_without(pairs, names, shapes, i, pairs.len() as int);
}

} // verus!
