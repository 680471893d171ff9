//! The mathematical model of a dictionary.
//!
//! A dictionary is modelled twice. Its *entry log* is a sequence of optional
//! items: position `i` holds `Some(item)` while the entry made at that
//! position is live and `None` once it has been deleted. Its *items* are the
//! live items of the log in order, which is the order of first insertion.
//! The functions of the second half say what the dictionary operations do to
//! the items.

use crate::payload::PyObjectPayload;
use crate::pyobjectrc::PyObjectRc;
use vstd::prelude::*;

verus! {

/// A key handle with its value handle.
pub type Item<T> = (PyObjectRc<T>, PyObjectRc<T>);

/// The live items of a log, in log order.
pub open spec fn live_items<A>(log: Seq<Option<A>>) -> Seq<A>
    decreases log.len(),
{
    if log.len() == 0 {
        Seq::empty()
    } else {
        match log.last() {
            Some(a) => live_items(log.drop_last()).push(a),
            None => live_items(log.drop_last()),
        }
    }
}

/// The number of live items before position `i` of the log: the place among
/// the live items of the item at `i`, if there is one.
pub open spec fn rank<A>(log: Seq<Option<A>>, i: int) -> int {
    live_items(log.take(i)).len() as int
}

/// The first position at or after `from` that holds a live item.
pub open spec fn first_live_from<A>(log: Seq<Option<A>>, from: int) -> Option<int>
    decreases log.len() - from,
{
    if from < 0 || from >= log.len() {
        None
    } else if log[from] is Some {
        Some(from)
    } else {
        first_live_from(log, from + 1)
    }
}

/// The last position that holds a live item.
pub open spec fn last_live<A>(log: Seq<Option<A>>) -> Option<int>
    decreases log.len(),
{
    if log.len() == 0 {
        None
    } else if log.last() is Some {
        Some(log.len() - 1)
    } else {
        last_live(log.drop_last())
    }
}

/// The log that holds the live items of `log` and nothing else.
pub open spec fn compacted<A>(log: Seq<Option<A>>) -> Seq<Option<A>> {
    live_items(log).map_values(|a: A| Some(a))
}

pub proof fn lemma_live_items_len<A>(log: Seq<Option<A>>)
    ensures
        live_items(log).len() <= log.len(),
    decreases log.len(),
{
    if log.len() > 0 {
        lemma_live_items_len(log.drop_last());
    }
}

/// The live items of a prefix are a prefix of the live items.
pub proof fn lemma_live_items_take<A>(log: Seq<Option<A>>, i: int)
    requires
        0 <= i <= log.len(),
    ensures
        rank(log, i) <= live_items(log).len(),
        live_items(log).take(rank(log, i)) == live_items(log.take(i)),
        i < log.len() && log[i] is Some ==> rank(log, i) < live_items(log).len() && live_items(
            log,
        )[rank(log, i)] == log[i]->0 && rank(log, i + 1) == rank(log, i) + 1,
        i < log.len() && log[i] is None ==> rank(log, i + 1) == rank(log, i),
    decreases log.len(),
{
    if i == log.len() {
        assert(log.take(i) == log);
    } else {
        let front = log.drop_last();
        lemma_live_items_take(front, i);
        assert(front.take(i) == log.take(i));
        if i + 1 == log.len() {
            assert(log.take(i + 1) == log);
        } else {
            assert(front.take(i + 1) == log.take(i + 1));
        }
    }
}

/// Every live item comes from a position of the log, which is the only one
/// with its rank.
pub proof fn lemma_live_items_source<A>(log: Seq<Option<A>>, j: int) -> (i: int)
    requires
        0 <= j < live_items(log).len(),
    ensures
        0 <= i < log.len(),
        log[i] == Some(live_items(log)[j]),
        rank(log, i) == j,
    decreases log.len(),
{
    let front = log.drop_last();
    let last = log.len() - 1;
    if log.last() is Some && j == live_items(front).len() {
        last
    } else {
        let i = lemma_live_items_source(front, j);
        assert(front.take(i) == log.take(i));
        i
    }
}

/// Deleting the item at position `i` removes the item of its rank.
pub proof fn lemma_live_items_delete<A>(log: Seq<Option<A>>, i: int)
    requires
        0 <= i < log.len(),
        log[i] is Some,
    ensures
        live_items(log.update(i, None)) == live_items(log).remove(rank(log, i)),
        forall|p: int|
            0 <= p <= i ==> #[trigger] rank(log.update(i, None), p) == rank(log, p),
    decreases log.len(),
{
    let after = log.update(i, None);
    let front = log.drop_last();
    let last = log.len() - 1;
    assert forall|p: int| 0 <= p <= i implies #[trigger] rank(after, p) == rank(log, p) by {
        assert(after.take(p) == log.take(p));
    }
    if i == last {
        assert(after.drop_last() == front);
    } else {
        lemma_live_items_delete(front, i);
        assert(after.drop_last() == front.update(i, None));
        assert(front.take(i) == log.take(i));
        lemma_live_items_take(front, i);
        match log.last() {
            Some(a) => {},
            None => {},
        }
    }
}

/// Replacing the live item at position `i` replaces the item of its rank.
pub proof fn lemma_live_items_replace<A>(log: Seq<Option<A>>, i: int, a: A)
    requires
        0 <= i < log.len(),
        log[i] is Some,
    ensures
        live_items(log.update(i, Some(a))) == live_items(log).update(rank(log, i), a),
    decreases log.len(),
{
    let after = log.update(i, Some(a));
    let front = log.drop_last();
    let last = log.len() - 1;
    if i == last {
        assert(after.drop_last() == front);
    } else {
        lemma_live_items_replace(front, i, a);
        assert(after.drop_last() == front.update(i, Some(a)));
        assert(front.take(i) == log.take(i));
        lemma_live_items_take(front, i);
        match log.last() {
            Some(b) => {},
            None => {},
        }
    }
}

/// A log without deleted entries holds its own live items.
pub proof fn lemma_live_items_of_all_live<A>(items: Seq<A>)
    ensures
        live_items(items.map_values(|a: A| Some(a))) == items,
    decreases items.len(),
{
    let log = items.map_values(|a: A| Some(a));
    if items.len() > 0 {
        lemma_live_items_of_all_live(items.drop_last());
        assert(log.drop_last() == items.drop_last().map_values(|a: A| Some(a)));
    }
}

/// The last live position holds the last live item.
pub proof fn lemma_last_live<A>(log: Seq<Option<A>>)
    ensures
        match last_live(log) {
            Some(i) => {
                &&& 0 <= i < log.len()
                &&& log[i] is Some
                &&& live_items(log).len() > 0
                &&& log[i]->0 == live_items(log).last()
                &&& rank(log, i) == live_items(log).len() - 1
                &&& forall|p: int| i < p < log.len() ==> (#[trigger] log[p]) is None
            },
            None => {
                &&& live_items(log).len() == 0
                &&& forall|p: int| 0 <= p < log.len() ==> (#[trigger] log[p]) is None
            },
        },
    decreases log.len(),
{
    if log.len() > 0 {
        let front = log.drop_last();
        let last = log.len() - 1;
        if !(log.last() is Some) {
            lemma_last_live(front);
            match last_live(front) {
                Some(i) => {
                    assert(front.take(i) == log.take(i));
                    assert forall|p: int| i < p < log.len() implies (#[trigger] log[p]) is None by {
                        if p < last {
                            assert(front[p] is None);
                        }
                    }
                },
                None => {
                    assert forall|p: int| 0 <= p < log.len() implies (#[trigger] log[p]) is None by {
                        if p < last {
                            assert(front[p] is None);
                        }
                    }
                },
            }
        }
    }
}

/// The number of live items at or after position `from`.
pub open spec fn live_count_from<A>(log: Seq<Option<A>>, from: int) -> int {
    if 0 <= from <= log.len() {
        live_items(log).len() - rank(log, from)
    } else {
        0
    }
}

/// Whether some item has the key `k`.
pub open spec fn has_key<T: PyObjectPayload>(items: Seq<Item<T>>, k: T::Key) -> bool {
    exists|i: int| 0 <= i < items.len() && (#[trigger] items[i]).0@.key() == k
}

/// The place of an item with the key `k`.
pub open spec fn index_of<T: PyObjectPayload>(items: Seq<Item<T>>, k: T::Key) -> int {
    choose|i: int| 0 <= i < items.len() && (#[trigger] items[i]).0@.key() == k
}

/// No two items have the same key.
pub open spec fn distinct_keys<T: PyObjectPayload>(items: Seq<Item<T>>) -> bool {
    forall|i: int, j: int|
        0 <= i < j < items.len() ==> (#[trigger] items[i]).0@.key() != (
        #[trigger] items[j]).0@.key()
}

/// The value stored under the key `k`, if there is one.
pub open spec fn items_get<T: PyObjectPayload>(items: Seq<Item<T>>, k: T::Key) -> Option<
    PyObjectRc<T>,
> {
    if has_key(items, k) {
        Some(items[index_of(items, k)].1)
    } else {
        None
    }
}

/// `after` is `before` with `value` stored under the key `k`: where the key
/// is present its value is replaced and the item keeps its place and its key
/// handle; where it is absent a new item with that key and value comes last.
pub open spec fn is_insertion<T: PyObjectPayload>(
    before: Seq<Item<T>>,
    after: Seq<Item<T>>,
    k: T::Key,
    value: PyObjectRc<T>,
) -> bool {
    if has_key(before, k) {
        let i = index_of(before, k);
        after == before.update(i, (before[i].0, value))
    } else {
        &&& after.len() == before.len() + 1
        &&& after.drop_last() == before
        &&& after.last().0@.key() == k
        &&& after.last().1 == value
    }
}

/// `after` is `before` with each pair of `pairs` stored in turn: the value
/// under the key.
pub open spec fn inserted_all<T: PyObjectPayload>(
    before: Seq<Item<T>>,
    pairs: Seq<(T::Key, PyObjectRc<T>)>,
    after: Seq<Item<T>>,
) -> bool
    decreases pairs.len(),
{
    if pairs.len() == 0 {
        after == before
    } else {
        exists|mid: Seq<Item<T>>|
            inserted_all(before, pairs.drop_last(), mid) && #[trigger] is_insertion(
                mid,
                after,
                pairs.last().0,
                pairs.last().1,
            )
    }
}

/// Storing one more pair after `pairs` is storing all of `pairs.push(..)`.
pub proof fn lemma_inserted_all_push<T: PyObjectPayload>(
    before: Seq<Item<T>>,
    pairs: Seq<(T::Key, PyObjectRc<T>)>,
    mid: Seq<Item<T>>,
    k: T::Key,
    value: PyObjectRc<T>,
    after: Seq<Item<T>>,
)
    requires
        inserted_all(before, pairs, mid),
        is_insertion(mid, after, k, value),
    ensures
        inserted_all(before, pairs.push((k, value)), after),
{
    let all = pairs.push((k, value));
    assert(all.drop_last() == pairs);
    assert(inserted_all(before, all.drop_last(), mid) && is_insertion(
        mid,
        after,
        all.last().0,
        all.last().1,
    ));
}

/// Storing `first` and then `second` is storing `first + second`.
pub proof fn lemma_inserted_all_concat<T: PyObjectPayload>(
    before: Seq<Item<T>>,
    first: Seq<(T::Key, PyObjectRc<T>)>,
    mid: Seq<Item<T>>,
    second: Seq<(T::Key, PyObjectRc<T>)>,
    after: Seq<Item<T>>,
)
    requires
        inserted_all(before, first, mid),
        inserted_all(mid, second, after),
    ensures
        inserted_all(before, first + second, after),
    decreases second.len(),
{
    if second.len() != 0 {
        let m = choose|m: Seq<Item<T>>|
            inserted_all(mid, second.drop_last(), m) && #[trigger] is_insertion(
                m,
                after,
                second.last().0,
                second.last().1,
            );
        lemma_inserted_all_concat(before, first, mid, second.drop_last(), m);
        assert((first + second).drop_last() == first + second.drop_last());
        assert(inserted_all(before, (first + second).drop_last(), m) && is_insertion(
            m,
            after,
            (first + second).last().0,
            (first + second).last().1,
        ));
    }
}

/// The keys and values of items, as pairs to store.
pub open spec fn item_pairs<T: PyObjectPayload>(items: Seq<Item<T>>) -> Seq<
    (T::Key, PyObjectRc<T>),
> {
    items.map_values(|item: Item<T>| (item.0@.key(), item.1))
}

/// Comparing any of the keys of the items never changes a dictionary.
pub open spec fn all_pure<T: crate::pyobject::PyValue>(items: Seq<Item<T>>) -> bool {
    forall|i: int| 0 <= i < items.len() ==> (#[trigger] items[i]).0@.is_pure()
}

/// Hashing and comparing any of the keys of the items never fail.
pub open spec fn all_infallible<T: crate::pyobject::PyValue>(items: Seq<Item<T>>) -> bool {
    forall|i: int| 0 <= i < items.len() ==> (#[trigger] items[i]).0@.is_infallible()
}

/// Every key of the items is a native text.
pub open spec fn all_text_keys<T: PyObjectPayload>(items: Seq<Item<T>>) -> bool {
    forall|i: int| 0 <= i < items.len() ==> (#[trigger] items[i]).0@.text() is Some
}

/// Storing a value under a native text keeps every key a native text.
pub proof fn lemma_text_keys_kept<T: PyObjectPayload>(
    before: Seq<Item<T>>,
    after: Seq<Item<T>>,
    text: Seq<char>,
    value: PyObjectRc<T>,
)
    requires
        all_text_keys(before),
        is_insertion(before, after, T::text_key(text), value),
    ensures
        all_text_keys(after),
{
    let k = T::text_key(text);
    assert forall|i: int| 0 <= i < after.len() implies (#[trigger] after[i]).0@.text() is Some by {
        if has_key(before, k) {
            assert(after[i].0 == before[i].0);
        } else if i < before.len() {
            assert(after[i] == after.drop_last()[i]);
        } else {
            after[i].0@.lemma_text_key(text);
        }
    }
}

/// Comparing the value of any of the items with another value never fails.
pub open spec fn all_comparable<T: crate::pyobject::PyValue>(items: Seq<Item<T>>) -> bool {
    forall|i: int| 0 <= i < items.len() ==> (#[trigger] items[i]).1@.is_comparable()
}

/// `exception` is what comparing the value of one of the items may fail
/// with.
pub open spec fn some_value_raises<T: crate::pyobject::PyValue>(
    items: Seq<Item<T>>,
    exception: PyObjectRc<T>,
) -> bool {
    exists|i: int| 0 <= i < items.len() && (#[trigger] items[i]).1@.raises(exception)
}

/// The items after the key `k` has been deleted.
pub open spec fn items_remove<T: PyObjectPayload>(items: Seq<Item<T>>, k: T::Key) -> Seq<Item<T>> {
    if has_key(items, k) {
        items.remove(index_of(items, k))
    } else {
        items
    }
}

/// The keys of the items, in order.
pub open spec fn items_keys<T: PyObjectPayload>(items: Seq<Item<T>>) -> Seq<T::Key> {
    items.map_values(|item: Item<T>| item.0@.key())
}

/// Among distinct keys, the item with a given key is found at its place.
pub proof fn lemma_index_of_unique<T: PyObjectPayload>(items: Seq<Item<T>>, i: int)
    requires
        distinct_keys(items),
        0 <= i < items.len(),
    ensures
        has_key(items, items[i].0@.key()),
        index_of(items, items[i].0@.key()) == i,
        items_get(items, items[i].0@.key()) == Some(items[i].1),
{
}

} // verus!
