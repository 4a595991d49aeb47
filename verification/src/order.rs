//! Putting things in order: a stable sort, as the arrangement it leaves and as
//! a function that finds it.
use vstd::prelude::*;
use crate::text;

verus! {

/// Whether the first of two goes strictly after the second.
pub type Later<T> = spec_fn(T, T) -> bool;

/// An arrangement with one more put after everything that does not go after it.
pub open spec fn placed<T>(arranged: Seq<T>, x: T, later: Later<T>) -> Seq<T>
    decreases arranged.len(),
{
    if arranged.len() > 0 && later(arranged.last(), x) {
        placed(arranged.drop_last(), x, later).push(arranged.last())
    } else {
        arranged.push(x)
    }
}

/// A list put in order; what ties stays as it stood.
pub open spec fn arranged<T>(list: Seq<T>, later: Later<T>) -> Seq<T>
    decreases list.len(),
{
    if list.len() == 0 {
        Seq::empty()
    } else {
        placed(arranged(list.drop_last(), later), list.last(), later)
    }
}

/// Nothing goes strictly after something that stands behind it.
pub open spec fn in_order<T>(list: Seq<T>, later: Later<T>) -> bool {
    forall|i: int, j: int| 0 <= i < j < list.len() ==> !later(#[trigger] list[i], #[trigger] list[j])
}

/// Going after is the strict part of a total order.
pub open spec fn is_order<T>(later: Later<T>) -> bool {
    &&& forall|a: T, b: T| #[trigger] later(a, b) ==> !later(b, a)
    &&& forall|a: T, b: T, c: T| #[trigger] later(a, b) && #[trigger] later(b, c) ==> later(a, c)
    &&& forall|a: T, b: T, c: T|
        !(#[trigger] later(a, b)) && !(#[trigger] later(b, c)) ==> !later(a, c)
}

/// Where an element is placed.
pub proof fn lemma_placed_at<T>(list: Seq<T>, x: T, later: Later<T>, p: int)
    requires
        0 <= p <= list.len(),
        forall|i: int| p <= i < list.len() ==> later(#[trigger] list[i], x),
        p > 0 ==> !later(list[p - 1], x),
    ensures
        placed(list, x, later) == list.insert(p, x),
    decreases list.len(),
{
    if p == list.len() {
        assert(list.push(x) =~= list.insert(p, x));
    } else {
        assert(later(list[list.len() - 1], x));
        let front = list.drop_last();
        assert forall|i: int| p <= i < front.len() implies later(#[trigger] front[i], x) by {
            assert(front[i] == list[i]);
        }
        lemma_placed_at(front, x, later, p);
        assert(front.insert(p, x).push(list.last()) =~= list.insert(p, x));
    }
}

/// There is a place for every element: past it everything goes after.
proof fn lemma_place_exists<T>(list: Seq<T>, x: T, later: Later<T>) -> (p: int)
    ensures
        0 <= p <= list.len(),
        forall|i: int| p <= i < list.len() ==> later(#[trigger] list[i], x),
        p > 0 ==> !later(list[p - 1], x),
        placed(list, x, later) == list.insert(p, x),
    decreases list.len(),
{
    if list.len() > 0 && later(list.last(), x) {
        let front = list.drop_last();
        let p = lemma_place_exists(front, x, later);
        assert forall|i: int| p <= i < list.len() implies later(#[trigger] list[i], x) by {
            if i < front.len() {
                assert(front[i] == list[i]);
            }
        }
        lemma_placed_at(list, x, later, p);
        p
    } else {
        lemma_placed_at(list, x, later, list.len() as int);
        list.len() as int
    }
}

/// Placing keeps the order, and adds exactly the one.
pub proof fn lemma_placed<T>(list: Seq<T>, x: T, later: Later<T>)
    requires
        is_order(later),
        in_order(list, later),
    ensures
        in_order(placed(list, x, later), later),
        placed(list, x, later).to_multiset() == list.to_multiset().insert(x),
        placed(list, x, later).len() == list.len() + 1,
{
    broadcast use vstd::seq_lib::group_to_multiset_ensures;

    let p = lemma_place_exists(list, x, later);
    let after = list.insert(p, x);
    assert forall|i: int, j: int| 0 <= i < j < after.len() implies !later(
        #[trigger] after[i],
        #[trigger] after[j],
    ) by {
        if i == p {
            assert(after[j] == list[j - 1]);
            assert(later(list[j - 1], x));
        } else if j == p {
            assert(after[i] == list[i]);
            assert(!later(list[p - 1], x));
            if i < p - 1 {
                assert(!later(list[i], list[p - 1]));
            }
        } else {
            let a = if i < p { i } else { i - 1 };
            let b = if j < p { j } else { j - 1 };
            assert(after[i] == list[a] && after[j] == list[b]);
        }
    }
    vstd::seq_lib::to_multiset_insert(list, p, x);
}

/// A list put in order is in order, and holds what it held.
pub proof fn lemma_arranged<T>(list: Seq<T>, later: Later<T>)
    requires
        is_order(later),
    ensures
        in_order(arranged(list, later), later),
        arranged(list, later).to_multiset() == list.to_multiset(),
        arranged(list, later).len() == list.len(),
    decreases list.len(),
{
    broadcast use vstd::seq_lib::group_to_multiset_ensures;

    if list.len() > 0 {
        lemma_arranged(list.drop_last(), later);
        lemma_placed(arranged(list.drop_last(), later), list.last(), later);
        assert(list.drop_last().push(list.last()) =~= list);
        vstd::seq_lib::to_multiset_build(list.drop_last(), list.last());
    }
}

/// A list put in order holds only what the list held.
pub proof fn lemma_arranged_from<T>(list: Seq<T>, later: Later<T>)
    ensures
        arranged(list, later).len() == list.len(),
        forall|k: int|
            0 <= k < list.len() ==> list.contains(#[trigger] arranged(list, later)[k]),
    decreases list.len(),
{
    if list.len() > 0 {
        let front = list.drop_last();
        let before = arranged(front, later);
        lemma_arranged_from(front, later);
        let p = lemma_place_exists(before, list.last(), later);
        assert forall|k: int| 0 <= k < list.len() implies list.contains(
            #[trigger] arranged(list, later)[k],
        ) by {
            if k == p {
                assert(list[list.len() - 1] == arranged(list, later)[k]);
            } else {
                let j = if k < p { k } else { k - 1 };
                assert(arranged(list, later)[k] == before[j]);
                let i = choose|i: int| 0 <= i < front.len() && front[i] == before[j];
                assert(list[i] == before[j]);
            }
        }
    }
}

/// Putting in order what a list stands for is putting the list in the same
/// order.
pub proof fn lemma_arranged_map<A, B>(
    list: Seq<A>,
    f: spec_fn(A) -> B,
    inner: Later<A>,
    outer: Later<B>,
)
    requires
        forall|a: A, b: A|
            list.contains(a) && list.contains(b) ==> #[trigger] inner(a, b) == outer(f(a), f(b)),
    ensures
        arranged(list, inner).map_values(f) == arranged(list.map_values(f), outer),
    decreases list.len(),
{
    let image = list.map_values(f);
    if list.len() == 0 {
        assert(arranged(list, inner).map_values(f) =~= arranged(image, outer));
    } else {
        let front = list.drop_last();
        let before = arranged(front, inner);
        assert forall|a: A| front.contains(a) implies #[trigger] list.contains(a) by {
            let i = choose|i: int| 0 <= i < front.len() && front[i] == a;
            assert(list[i] == a);
        }
        assert(list.contains(list[list.len() - 1]));
        lemma_arranged_map(front, f, inner, outer);
        assert(image.drop_last() =~= front.map_values(f));
        lemma_arranged_from(front, inner);
        assert forall|k: int| 0 <= k < before.len() implies #[trigger] inner(before[k], list.last())
            == outer(f(before[k]), f(list.last())) by {
            assert(front.contains(before[k]));
            assert(list.contains(before[k]));
        }
        lemma_placed_map(before, list.last(), f, inner, outer);
    }
}

proof fn lemma_placed_map<A, B>(
    list: Seq<A>,
    x: A,
    f: spec_fn(A) -> B,
    inner: Later<A>,
    outer: Later<B>,
)
    requires
        forall|k: int|
            0 <= k < list.len() ==> #[trigger] inner(list[k], x) == outer(f(list[k]), f(x)),
    ensures
        placed(list, x, inner).map_values(f) == placed(list.map_values(f), f(x), outer),
    decreases list.len(),
{
    let image = list.map_values(f);
    if list.len() > 0 {
        assert(inner(list[list.len() - 1], x) == outer(f(list[list.len() - 1]), f(x)));
    }
    if list.len() > 0 && inner(list.last(), x) {
        let front = list.drop_last();
        assert forall|k: int| 0 <= k < front.len() implies #[trigger] inner(front[k], x) == outer(
            f(front[k]),
            f(x),
        ) by {
            assert(front[k] == list[k]);
            assert(inner(list[k], x) == outer(f(list[k]), f(x)));
        }
        lemma_placed_map(front, x, f, inner, outer);
        assert(image.drop_last() =~= front.map_values(f));
        assert(placed(list, x, inner).map_values(f) =~= placed(front, x, inner).map_values(f).push(
            f(list.last()),
        ));
    } else {
        assert(list.push(x).map_values(f) =~= image.push(f(x)));
    }
}

/// Two lists with the same things in them, none of which tie, have the same
/// order.
pub proof fn lemma_arranged_same<T>(a: Seq<T>, b: Seq<T>, later: Later<T>)
    requires
        is_order(later),
        a.to_multiset() == b.to_multiset(),
        a.no_duplicates(),
        forall|x: T, y: T|
            a.contains(x) && a.contains(y) && x != y ==> #[trigger] later(x, y) || later(y, x),
    ensures
        arranged(a, later) == arranged(b, later),
{
    lemma_arranged(a, later);
    lemma_arranged(b, later);
    lemma_untied(a, arranged(a, later), later);
    lemma_untied(a, arranged(b, later), later);
    lemma_order_is_unique(arranged(a, later), arranged(b, later), later);
}

proof fn lemma_untied<T>(a: Seq<T>, sorted: Seq<T>, later: Later<T>)
    requires
        is_order(later),
        in_order(sorted, later),
        a.to_multiset() == sorted.to_multiset(),
        a.no_duplicates(),
        forall|x: T, y: T|
            a.contains(x) && a.contains(y) && x != y ==> #[trigger] later(x, y) || later(y, x),
    ensures
        forall|i: int, j: int|
            0 <= i < j < sorted.len() ==> later(#[trigger] sorted[j], #[trigger] sorted[i]),
{
    broadcast use vstd::seq_lib::group_to_multiset_ensures;

    a.lemma_multiset_has_no_duplicates();
    sorted.lemma_multiset_has_no_duplicates_conv();
    assert forall|i: int, j: int| 0 <= i < j < sorted.len() implies later(
        #[trigger] sorted[j],
        #[trigger] sorted[i],
    ) by {
        assert(sorted.contains(sorted[i]) && sorted.contains(sorted[j]));
        assert(sorted.to_multiset().count(sorted[i]) > 0);
        assert(sorted.to_multiset().count(sorted[j]) > 0);
        assert(a.contains(sorted[i]) && a.contains(sorted[j]));
        assert(!later(sorted[i], sorted[j]));
    }
}

/// Two lists in order without ties, and with the same things in them, are the
/// same list.
pub proof fn lemma_order_is_unique<T>(a: Seq<T>, b: Seq<T>, later: Later<T>)
    requires
        a.to_multiset() == b.to_multiset(),
        forall|i: int, j: int|
            0 <= i < j < a.len() ==> later(#[trigger] a[j], #[trigger] a[i]),
        forall|i: int, j: int|
            0 <= i < j < b.len() ==> later(#[trigger] b[j], #[trigger] b[i]),
        forall|x: T, y: T| #[trigger] later(x, y) ==> !later(y, x),
    ensures
        a == b,
    decreases a.len(),
{
    broadcast use vstd::seq_lib::group_to_multiset_ensures;

    assert(a.len() == a.to_multiset().len());
    assert(b.len() == b.to_multiset().len());
    if a.len() > 0 {
        let x = a[a.len() - 1];
        let y = b[b.len() - 1];
        assert(a.to_multiset().count(x) > 0) by {
            assert(a.contains(x));
        }
        assert(b.to_multiset().count(y) > 0) by {
            assert(b.contains(y));
        }
        assert(b.contains(x));
        assert(a.contains(y));
        let i = choose|i: int| 0 <= i < b.len() && b[i] == x;
        let j = choose|j: int| 0 <= j < a.len() && a[j] == y;
        assert(x == y) by {
            if x != y {
                assert(i < b.len() - 1);
                assert(j < a.len() - 1);
                assert(later(b[b.len() - 1], b[i]));
                assert(later(a[a.len() - 1], a[j]));
            }
        }
        let af = a.drop_last();
        let bf = b.drop_last();
        assert(af.push(x) =~= a);
        assert(bf.push(y) =~= b);
        vstd::seq_lib::to_multiset_build(af, x);
        vstd::seq_lib::to_multiset_build(bf, y);
        assert(af.to_multiset() =~= a.to_multiset().remove(x));
        assert(bf.to_multiset() =~= b.to_multiset().remove(y));
        assert forall|i: int, j: int| 0 <= i < j < af.len() implies later(
            #[trigger] af[j],
            #[trigger] af[i],
        ) by {
            assert(af[i] == a[i] && af[j] == a[j]);
        }
        assert forall|i: int, j: int| 0 <= i < j < bf.len() implies later(
            #[trigger] bf[j],
            #[trigger] bf[i],
        ) by {
            assert(bf[i] == b[i] && bf[j] == b[j]);
        }
        lemma_order_is_unique(af, bf, later);
        assert(a =~= b);
    } else {
        assert(a =~= b);
    }
}

/// The order of texts.
pub open spec fn text_later(a: Seq<char>, b: Seq<char>) -> bool {
    text::precedes(b, a)
}

/// Texts are ordered, and no two of them tie.
pub proof fn lemma_text_order()
    ensures
        is_order(|a: Seq<char>, b: Seq<char>| text_later(a, b)),
        forall|a: Seq<char>, b: Seq<char>|
            a != b ==> #[trigger] text_later(a, b) || text_later(b, a),
{
    let later = |a: Seq<char>, b: Seq<char>| text_later(a, b);
    assert forall|a: Seq<char>, b: Seq<char>| #[trigger] later(a, b) implies !later(b, a) by {
        text::lemma_precedes_asymmetric(b, a);
    }
    assert forall|a: Seq<char>, b: Seq<char>, c: Seq<char>| #[trigger]
        later(a, b) && #[trigger] later(b, c) implies later(a, c) by {
        text::lemma_precedes_transitive(c, b, a);
    }
    assert forall|a: Seq<char>, b: Seq<char>|
        a != b implies #[trigger] text_later(a, b) || text_later(b, a) by {
        text::lemma_precedes_total(a, b);
    }
    assert forall|a: Seq<char>, b: Seq<char>, c: Seq<char>|
        !(#[trigger] later(a, b)) && !(#[trigger] later(b, c)) implies !later(a, c) by {
        if later(a, c) {
            // a after c, and b not before a, nor c before b.
            text::lemma_precedes_total(a, b);
            text::lemma_precedes_total(b, c);
            if a != b && b != c {
                text::lemma_precedes_transitive(a, b, c);
                text::lemma_precedes_asymmetric(a, c);
            }
        }
    }
}

/// The places of a list, in order.
pub open spec fn places(n: int) -> Seq<usize> {
    Seq::new(n as nat, |i: int| i as usize)
}

/// The places of a list of texts, in the order of the texts.
pub open spec fn text_places(keys: Seq<Seq<char>>) -> Seq<usize> {
    arranged(
        places(keys.len() as int),
        |a: usize, b: usize| text_later(keys[a as int], keys[b as int]),
    )
}

/// What stands at the places of a list's texts is the list in the order of its
/// texts.
pub proof fn lemma_text_places<T>(list: Seq<T>, key: spec_fn(T) -> Seq<char>)
    requires
        list.len() <= usize::MAX,
    ensures
        text_places(list.map_values(key)).map_values(|p: usize| list[p as int]) == arranged(
            list,
            |a: T, b: T| text_later(key(a), key(b)),
        ),
{
    let keys = list.map_values(key);
    let all = places(list.len() as int);
    let f = |p: usize| list[p as int];
    let inner = |a: usize, b: usize| text_later(keys[a as int], keys[b as int]);
    let outer = |a: T, b: T| text_later(key(a), key(b));
    assert forall|a: usize, b: usize| all.contains(a) && all.contains(b) implies #[trigger] inner(
        a,
        b,
    ) == outer(f(a), f(b)) by {
        let i = choose|i: int| 0 <= i < all.len() && all[i] == a;
        let j = choose|j: int| 0 <= j < all.len() && all[j] == b;
        assert(a == i && b == j);
    }
    lemma_arranged_map(all, f, inner, outer);
    assert(all.map_values(f) =~= list);
}

/// The places of a list of texts, in the order of the texts, ties as they
/// stand.
pub fn text_order(keys: &[&str]) -> (order: Vec<usize>)
    ensures
        order@ == text_places(keys@.map_values(|key: &str| key@)),
        order@.len() == keys@.len(),
        forall|i: int| 0 <= i < order@.len() ==> (#[trigger] order@[i]) < keys@.len(),
{
    let ghost texts = keys@.map_values(|key: &str| key@);
    let ghost later = |a: usize, b: usize| text_later(texts[a as int], texts[b as int]);
    let ghost all = places(texts.len() as int);
    let n: usize = keys.len();
    proof {
        lemma_places_order(texts);
        assert(all.subrange(0, 0) =~= Seq::<usize>::empty());
    }
    let mut order: Vec<usize> = Vec::new();
    let mut i: usize = 0;
    while i < n
        invariant
            i <= n,
            n == keys@.len(),
            texts == keys@.map_values(|key: &str| key@),
            later == (|a: usize, b: usize| text_later(texts[a as int], texts[b as int])),
            all == places(texts.len() as int),
            is_order(later),
            order@ == arranged(all.subrange(0, i as int), later),
            order@.len() == i,
            in_order(order@, later),
            forall|k: int| 0 <= k < order@.len() ==> (#[trigger] order@[k]) < n,
        decreases n - i,
    {
        // Everything before `low` stays before `i`, everything from `high` on
        // goes after it.
        let mut low: usize = 0;
        let mut high: usize = i;
        while low < high
            invariant
                low <= high <= i,
                i < n,
                n == keys@.len(),
                texts == keys@.map_values(|key: &str| key@),
                later == (|a: usize, b: usize| text_later(texts[a as int], texts[b as int])),
                is_order(later),
                order@.len() == i,
                in_order(order@, later),
                forall|k: int| 0 <= k < order@.len() ==> (#[trigger] order@[k]) < n,
                forall|k: int| 0 <= k < low ==> !later(#[trigger] order@[k], i),
                forall|k: int| high <= k < i ==> later(#[trigger] order@[k], i),
            decreases high - low,
        {
            let mid: usize = low + (high - low) / 2;
            let at: usize = order[mid];
            assert(texts[at as int] == keys@[at as int]@);
            assert(texts[i as int] == keys@[i as int]@);
            if text::str_less(keys[i], keys[at]) {
                assert forall|k: int| mid <= k < i implies later(#[trigger] order@[k], i) by {
                    if k > mid {
                        assert(!later(order@[mid as int], order@[k]));
                        if !later(order@[k], i) {
                            assert(!later(order@[mid as int], i));
                        }
                    }
                }
                high = mid;
            } else {
                assert(!later(order@[mid as int], i));
                assert forall|k: int| 0 <= k < mid + 1 implies !later(#[trigger] order@[k], i) by {
                    if k < mid {
                        assert(!later(order@[k], order@[mid as int]));
                    }
                }
                low = mid + 1;
            }
        }
        proof {
            lemma_placed_at(order@, i, later, low as int);
            lemma_placed(order@, i, later);
            assert(all.subrange(0, i + 1).drop_last() =~= all.subrange(0, i as int));
            assert(all.subrange(0, i + 1).last() == i);
        }
        let ghost before = order@;
        order.insert(low, i);
        proof {
            assert forall|k: int| 0 <= k < order@.len() implies (#[trigger] order@[k]) < n by {
                if k < low {
                    assert(order@[k] == before[k]);
                } else if k > low {
                    assert(order@[k] == before[k - 1]);
                }
            }
        }
        i = i + 1;
    }
    assert(all.subrange(0, all.len() as int) =~= all);
    order
}

proof fn lemma_places_order(texts: Seq<Seq<char>>)
    ensures
        is_order(|a: usize, b: usize| text_later(texts[a as int], texts[b as int])),
{
    let outer = |a: Seq<char>, b: Seq<char>| text_later(a, b);
    let later = |a: usize, b: usize| text_later(texts[a as int], texts[b as int]);
    lemma_text_order();
    assert forall|a: usize, b: usize| #[trigger] later(a, b) implies !later(b, a) by {
        assert(outer(texts[a as int], texts[b as int]));
    }
    assert forall|a: usize, b: usize, c: usize| #[trigger]
        later(a, b) && #[trigger] later(b, c) implies later(a, c) by {
        assert(outer(texts[a as int], texts[b as int]) && outer(texts[b as int], texts[c as int]));
        assert(outer(texts[a as int], texts[c as int]));
    }
    assert forall|a: usize, b: usize, c: usize|
        !(#[trigger] later(a, b)) && !(#[trigger] later(b, c)) implies !later(a, c) by {
        assert(!outer(texts[a as int], texts[b as int]) && !outer(
            texts[b as int],
            texts[c as int],
        ));
        assert(!outer(texts[a as int], texts[c as int]));
    }
}

/// The places of a list of numbers, in the order of the numbers.
pub open spec fn number_places(keys: Seq<i128>) -> Seq<usize> {
    arranged(places(keys.len() as int), |a: usize, b: usize| keys[a as int] > keys[b as int])
}

/// The places of a list of numbers, in the order of the numbers, ties as they
/// stand.
pub fn number_order(keys: &[i128]) -> (order: Vec<usize>)
    ensures
        order@ == number_places(keys@),
        order@.len() == keys@.len(),
        forall|i: int| 0 <= i < order@.len() ==> (#[trigger] order@[i]) < keys@.len(),
        forall|i: int, j: int|
            0 <= i < j < order@.len() ==> keys@[(#[trigger] order@[i]) as int] <= keys@[(
            #[trigger] order@[j]) as int],
{
    let ghost later = |a: usize, b: usize| keys@[a as int] > keys@[b as int];
    let ghost all = places(keys@.len() as int);
    let n: usize = keys.len();
    assert(is_order(later));
    assert(all.subrange(0, 0) =~= Seq::<usize>::empty());
    let mut order: Vec<usize> = Vec::new();
    let mut i: usize = 0;
    while i < n
        invariant
            i <= n,
            n == keys@.len(),
            later == (|a: usize, b: usize| keys@[a as int] > keys@[b as int]),
            all == places(keys@.len() as int),
            is_order(later),
            order@ == arranged(all.subrange(0, i as int), later),
            order@.len() == i,
            in_order(order@, later),
            forall|k: int| 0 <= k < order@.len() ==> (#[trigger] order@[k]) < n,
        decreases n - i,
    {
        let mut at: usize = i;
        while at > 0 && keys[order[at - 1]] > keys[i]
            invariant
                at <= i,
                i < n,
                n == keys@.len(),
                later == (|a: usize, b: usize| keys@[a as int] > keys@[b as int]),
                order@.len() == i,
                forall|k: int| 0 <= k < order@.len() ==> (#[trigger] order@[k]) < n,
                forall|k: int| at <= k < i ==> later(#[trigger] order@[k], i),
            decreases at,
        {
            at = at - 1;
        }
        proof {
            lemma_placed_at(order@, i, later, at as int);
            lemma_placed(order@, i, later);
            assert(all.subrange(0, i + 1).drop_last() =~= all.subrange(0, i as int));
            assert(all.subrange(0, i + 1).last() == i);
        }
        let ghost before = order@;
        order.insert(at, i);
        proof {
            assert forall|k: int| 0 <= k < order@.len() implies (#[trigger] order@[k]) < n by {
                if k < at {
                    assert(order@[k] == before[k]);
                } else if k > at {
                    assert(order@[k] == before[k - 1]);
                }
            }
        }
        i = i + 1;
    }
    proof {
        assert(all.subrange(0, all.len() as int) =~= all);
        assert forall|a: int, b: int| 0 <= a < b < order@.len() implies keys@[(
        #[trigger] order@[a]) as int] <= keys@[(#[trigger] order@[b]) as int] by {
            assert(!later(order@[a], order@[b]));
        }
    }
    order
}

} // verus!
