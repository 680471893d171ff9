//! What holds of a dictionary whatever is done to it.
//!
//! The contracts of the operations say what one operation does to the items
//! of a dictionary. The theorems here say what follows for every sequence of
//! operations: which keys are there, in which order they stand, and what a
//! lookup finds.

use crate::dictdatatype::Dict;
use crate::items::{
    distinct_keys, has_key, index_of, inserted_all, is_insertion, items_get, items_keys,
    items_remove, lemma_index_of_unique, Item,
};
use crate::payload::PyObjectPayload;
use crate::pyobjectrc::PyObjectRc;
use vstd::prelude::*;

verus! {

/// One change to the set of keys: a value is stored under a key, or a key is
/// deleted.
pub enum KeyOp<K> {
    Insert(K),
    Delete(K),
}

/// Whether the key `k` is there after `ops`: the last of the operations that
/// speak of it stores a value under it.
pub open spec fn live_after<K>(ops: Seq<KeyOp<K>>, k: K) -> bool
    decreases ops.len(),
{
    if ops.len() == 0 {
        false
    } else {
        match ops.last() {
            KeyOp::Insert(x) => x == k || live_after(ops.drop_last(), k),
            KeyOp::Delete(x) => x != k && live_after(ops.drop_last(), k),
        }
    }
}

/// The operation by which the key `k`, which is there after `ops`, came to be
/// there: the first to store a value under it since it was last absent.
pub open spec fn birth<K>(ops: Seq<KeyOp<K>>, k: K) -> int
    decreases ops.len(),
{
    if ops.len() == 0 {
        0
    } else {
        match ops.last() {
            KeyOp::Insert(x) => if x == k && !live_after(ops.drop_last(), k) {
                ops.len() - 1
            } else {
                birth(ops.drop_last(), k)
            },
            KeyOp::Delete(_) => birth(ops.drop_last(), k),
        }
    }
}

/// The keys after one change: a key that is stored and was absent comes
/// last, a key that is deleted leaves, and nothing else moves.
pub open spec fn keys_step<K>(keys: Seq<K>, op: KeyOp<K>) -> Seq<K> {
    match op {
        KeyOp::Insert(k) => if keys.contains(k) {
            keys
        } else {
            keys.push(k)
        },
        KeyOp::Delete(k) => if keys.contains(k) {
            keys.remove(keys.index_of(k))
        } else {
            keys
        },
    }
}

/// The keys of a dictionary that was empty and has undergone `ops`, in the
/// order in which a walk over the dictionary meets them.
pub open spec fn keys_after<K>(ops: Seq<KeyOp<K>>) -> Seq<K>
    decreases ops.len(),
{
    if ops.len() == 0 {
        Seq::empty()
    } else {
        keys_step(keys_after(ops.drop_last()), ops.last())
    }
}

/// The value that stands under the key `k` in `after`, if `after` is
/// `before` with a value stored under `k`.
pub open spec fn stored_value<T: PyObjectPayload>(
    before: Seq<Item<T>>,
    after: Seq<Item<T>>,
    k: T::Key,
) -> PyObjectRc<T> {
    if has_key(before, k) {
        after[index_of(before, k)].1
    } else {
        after.last().1
    }
}

/// The items `after` are what `op` makes of the items `before`, as the
/// contracts of `insert` and `delete` state it: some value has been stored
/// under a key, or a key has been deleted.
pub open spec fn items_step<T: PyObjectPayload>(
    before: Seq<Item<T>>,
    op: KeyOp<T::Key>,
    after: Seq<Item<T>>,
) -> bool {
    match op {
        KeyOp::Insert(k) => is_insertion(before, after, k, stored_value(before, after, k)),
        KeyOp::Delete(k) => after == items_remove(before, k),
    }
}

/// Storing a value under a key is a step, whatever the value.
pub proof fn lemma_insertion_is_step<T: PyObjectPayload>(
    before: Seq<Item<T>>,
    after: Seq<Item<T>>,
    k: T::Key,
    value: PyObjectRc<T>,
)
    requires
        is_insertion(before, after, k, value),
    ensures
        items_step(before, KeyOp::Insert(k), after),
        stored_value(before, after, k) == value,
{
}

proof fn lemma_keys_distinct<T: PyObjectPayload>(items: Seq<Item<T>>)
    ensures
        distinct_keys(items) <==> items_keys(items).no_duplicates(),
{
    let keys = items_keys(items);
    if keys.no_duplicates() {
        assert forall|i: int, j: int| 0 <= i < j < items.len() implies (#[trigger] items[i]).0@.key()
            != (#[trigger] items[j]).0@.key() by {
            assert(keys[i] != keys[j]);
        }
    }
}

proof fn lemma_has_key_contains<T: PyObjectPayload>(items: Seq<Item<T>>, k: T::Key)
    ensures
        has_key(items, k) <==> items_keys(items).contains(k),
        has_key(items, k) ==> 0 <= index_of(items, k) < items.len() && items_keys(items)[index_of(
            items,
            k,
        )] == k,
{
    let keys = items_keys(items);
    if has_key(items, k) {
        let i = index_of(items, k);
        assert(keys[i] == k);
    }
}

/// One operation does to the keys of the items what `keys_step` says, and
/// keeps the keys distinct.
pub proof fn lemma_items_step<T: PyObjectPayload>(
    before: Seq<Item<T>>,
    op: KeyOp<T::Key>,
    after: Seq<Item<T>>,
)
    requires
        distinct_keys(before),
        items_step(before, op, after),
    ensures
        distinct_keys(after),
        items_keys(after) == keys_step(items_keys(before), op),
{
    let keys = items_keys(before);
    match op {
        KeyOp::Insert(k) => {
            lemma_has_key_contains(before, k);
            if !has_key(before, k) {
                assert(items_keys(after) =~= keys.push(k));
            }
        },
        KeyOp::Delete(k) => {
            lemma_has_key_contains(before, k);
        },
    }
    lemma_keys_distinct(after);
}

/// After any sequence of insertions and deletions on a dictionary that was
/// empty, a walk over the dictionary meets exactly the keys that are there,
/// each once, in the order in which they came to be there. A key that was
/// deleted and stored again stands where its new insertion puts it.
pub proof fn lemma_insertion_order<K>(ops: Seq<KeyOp<K>>)
    ensures
        keys_after(ops).no_duplicates(),
        forall|k: K| #[trigger] keys_after(ops).contains(k) <==> live_after(ops, k),
        forall|k: K| live_after(ops, k) ==> 0 <= #[trigger] birth(ops, k) < ops.len(),
        forall|i: int, j: int|
            0 <= i < j < keys_after(ops).len() ==> birth(ops, #[trigger] keys_after(ops)[i])
                < birth(ops, #[trigger] keys_after(ops)[j]),
    decreases ops.len(),
{
    if ops.len() > 0 {
        let front = ops.drop_last();
        lemma_insertion_order(front);
        let keys = keys_after(front);
        let after = keys_after(ops);
        assert forall|k: K| live_after(ops, k) implies 0 <= #[trigger] birth(ops, k)
            < ops.len() by {
            match ops.last() {
                KeyOp::Insert(x) => {
                    if !(x == k && !live_after(front, k)) {
                        assert(0 <= birth(front, k) < front.len());
                    }
                },
                KeyOp::Delete(x) => {},
            }
        }
        match ops.last() {
            KeyOp::Insert(k) => {
                if !keys.contains(k) {
                    assert forall|x: K| #[trigger] after.contains(x) <==> live_after(ops, x) by {
                        if after.contains(x) {
                            let i = choose|i: int| 0 <= i < after.len() && after[i] == x;
                            if i < keys.len() {
                                assert(keys.contains(x));
                            }
                        }
                        if live_after(ops, x) {
                            if x == k {
                                assert(after[keys.len() as int] == k);
                            } else {
                                assert(keys.contains(x));
                                let i = choose|i: int| 0 <= i < keys.len() && keys[i] == x;
                                assert(after[i] == x);
                            }
                        }
                    }
                    assert forall|i: int, j: int| 0 <= i < j < after.len() implies birth(
                        ops,
                        #[trigger] after[i],
                    ) < birth(ops, #[trigger] after[j]) by {
                        assert(keys.contains(keys[i]));
                    }
                }
            },
            KeyOp::Delete(k) => {
                if keys.contains(k) {
                    let d = keys.index_of(k);
                    assert forall|x: K| #[trigger] after.contains(x) <==> live_after(ops, x) by {
                        if after.contains(x) {
                            let i = choose|i: int| 0 <= i < after.len() && after[i] == x;
                            let i0 = if i < d {
                                i
                            } else {
                                i + 1
                            };
                            assert(keys.contains(x));
                        }
                        if live_after(ops, x) {
                            assert(keys.contains(x));
                            let i0 = choose|i: int| 0 <= i < keys.len() && keys[i] == x;
                            let i = if i0 < d {
                                i0
                            } else {
                                i0 - 1
                            };
                            assert(after[i] == x);
                        }
                    }
                }
            },
        }
    }
}

/// A key that is deleted and then stored again is the last key.
pub proof fn lemma_reinserted_key_is_last<K>(ops: Seq<KeyOp<K>>, k: K)
    ensures
        keys_after(ops.push(KeyOp::Delete(k)).push(KeyOp::Insert(k))).len() > 0,
        keys_after(ops.push(KeyOp::Delete(k)).push(KeyOp::Insert(k))).last() == k,
{
    let deleted = ops.push(KeyOp::Delete(k));
    let again = deleted.push(KeyOp::Insert(k));
    assert(again.drop_last() == deleted);
    lemma_insertion_order(deleted);
}

/// The items of a dictionary that was empty and has undergone the
/// operations `ops`, whatever values were stored, have the keys
/// `keys_after(ops)`, in that order: `states` holds the items before the
/// first operation and after each.
pub proof fn lemma_trace_keys<T: PyObjectPayload>(
    states: Seq<Seq<Item<T>>>,
    ops: Seq<KeyOp<T::Key>>,
)
    requires
        states.len() == ops.len() + 1,
        states[0].len() == 0,
        forall|i: int| 0 <= i < ops.len() ==> #[trigger] items_step(states[i], ops[i], states[i + 1]),
    ensures
        distinct_keys(states.last()),
        items_keys(states.last()) == keys_after(ops),
    decreases ops.len(),
{
    if ops.len() != 0 {
        let n = ops.len() - 1;
        let front = ops.drop_last();
        let before = states.drop_last();
        lemma_trace_keys(before, front);
        lemma_items_step(states[n], ops[n], states[n + 1]);
    }
}

/// A value that has been stored under a key is the value that a lookup of
/// the key finds, and the lookup of every other key finds what it found
/// before.
pub proof fn lemma_get_after_insert<T: PyObjectPayload>(
    before: Seq<Item<T>>,
    after: Seq<Item<T>>,
    k: T::Key,
    value: PyObjectRc<T>,
    other: T::Key,
)
    requires
        distinct_keys(before),
        is_insertion(before, after, k, value),
    ensures
        distinct_keys(after),
        items_get(after, k) == Some(value),
        other != k ==> items_get(after, other) == items_get(before, other),
{
    lemma_insertion_is_step(before, after, k, value);
    lemma_items_step(before, KeyOp::Insert(k), after);
    if has_key(before, k) {
        if other != k {
            if has_key(before, other) {
                let j = index_of(before, other);
                lemma_index_of_unique(after, j);
            }
        }
    } else {
        if !has_key(before, other) && has_key(after, other) && other != k {
            let j = index_of(after, other);
            assert(after[j] == after.drop_last()[j]);
        }
    }
}

/// A key that has been deleted is a key that a lookup does not find, and the
/// lookup of every other key finds what it found before.
pub proof fn lemma_get_after_delete<T: PyObjectPayload>(
    before: Seq<Item<T>>,
    k: T::Key,
    other: T::Key,
)
    requires
        distinct_keys(before),
    ensures
        distinct_keys(items_remove(before, k)),
        items_get(items_remove(before, k), k) is None,
        other != k ==> items_get(items_remove(before, k), other) == items_get(before, other),
{
    let after = items_remove(before, k);
    if has_key(before, k) {
        let d = index_of(before, k);
        if has_key(after, k) {
            let j = index_of(after, k);
            let j0 = if j < d {
                j
            } else {
                j + 1
            };
        }
        if other != k {
            if has_key(before, other) {
                let j0 = index_of(before, other);
                let j = if j0 < d {
                    j0
                } else {
                    j0 - 1
                };
                lemma_index_of_unique(after, j);
            } else if has_key(after, other) {
                let j = index_of(after, other);
                let j0 = if j < d {
                    j
                } else {
                    j + 1
                };
            }
        }
    }
}

/// Every item of a well-formed dictionary is found by a lookup of its key,
/// however many times the index table has been rebuilt.
pub proof fn lemma_every_item_found<T: PyObjectPayload>(dict: &Dict<T>, i: int)
    requires
        dict.wf(),
        0 <= i < dict@.len(),
    ensures
        has_key(dict@, dict@[i].0@.key()),
        items_get(dict@, dict@[i].0@.key()) == Some(dict@[i].1),
{
    dict.lemma_distinct();
}

/// The value that the last of `pairs` with the key `k` carries, if one of
/// them has that key.
pub open spec fn last_value<T: PyObjectPayload>(
    pairs: Seq<(T::Key, PyObjectRc<T>)>,
    k: T::Key,
) -> Option<PyObjectRc<T>>
    decreases pairs.len(),
{
    if pairs.len() == 0 {
        None
    } else if pairs.last().0 == k {
        Some(pairs.last().1)
    } else {
        last_value(pairs.drop_last(), k)
    }
}

/// After pairs have been stored in turn, as a merge does it, a lookup of a
/// key finds the value of the last pair with that key, and where no pair has
/// the key it finds what it found before.
pub proof fn lemma_get_after_merge<T: PyObjectPayload>(
    before: Seq<Item<T>>,
    pairs: Seq<(T::Key, PyObjectRc<T>)>,
    after: Seq<Item<T>>,
    k: T::Key,
)
    requires
        distinct_keys(before),
        inserted_all(before, pairs, after),
    ensures
        distinct_keys(after),
        items_get(after, k) == match last_value(pairs, k) {
            Some(value) => Some(value),
            None => items_get(before, k),
        },
    decreases pairs.len(),
{
    if pairs.len() > 0 {
        let mid = choose|mid: Seq<Item<T>>|
            inserted_all(before, pairs.drop_last(), mid) && #[trigger] is_insertion(
                mid,
                after,
                pairs.last().0,
                pairs.last().1,
            );
        lemma_get_after_merge(before, pairs.drop_last(), mid, k);
        lemma_get_after_insert(mid, after, pairs.last().0, pairs.last().1, k);
    }
}

} // verus!
