//! The dictionary type of the hosted language, on top of the hash map.
//!
//! A `PyDict` is what the language's `dict` is: the hash map of
//! [`crate::dictdatatype`] with the operations of the language laid over it:
//! lookups with defaults, merging, comparison, printing, and the views and
//! iterators of [`crate::dictiter`].

use crate::dictdatatype::{
    Dict, DictError, DictKey, DictSize, TypeErrorKind, MIN_CAPACITY, VERSION_LIMIT,
};
use crate::dictiter::{DictViewKind, PyDictIterator, PyDictReverseIterator, PyDictView};
use crate::items::{
    all_comparable, all_infallible, all_pure, all_text_keys, first_live_from, has_key, inserted_all, item_pairs, items_get,
    lemma_inserted_all_concat, lemma_inserted_all_push,
    lemma_text_keys_kept, some_value_raises, lemma_live_items_take, live_count_from,
    rank, Item,
};
use crate::objnone::into_pyobject;
use crate::payload::HashValue;
use crate::pyobject::{PyComparisonOp, PyComparisonValue, PyValue};
use crate::pyobjectrc::PyObjectRc;
use vstd::prelude::*;

verus! {

/// The hash map that a dictionary keeps its items in.
pub type DictContentType<T> = Dict<T>;

/// Named values, in order: the attributes of an object or the keyword
/// arguments of a call.
pub type PyAttributes<T> = Vec<(String, PyObjectRc<T>)>;

/// A dictionary of the hosted language.
pub struct PyDict<T> {
    entries: DictContentType<T>,
}

/// What a dictionary can be filled from.
pub enum DictSource<'a, T> {
    /// Another dictionary.
    Dict(&'a PyDict<T>),
    /// A sequence of elements, each of which is to hold a key and a value
    /// and nothing else.
    Pairs(Vec<Vec<PyObjectRc<T>>>),
}

/// The first element that does not hold exactly two objects, or the number
/// of elements if there is none.
pub open spec fn first_malformed<T>(elements: Seq<Vec<PyObjectRc<T>>>) -> int
    decreases elements.len(),
{
    if elements.len() == 0 {
        0
    } else if first_malformed(elements.drop_last()) < elements.len() - 1 {
        first_malformed(elements.drop_last())
    } else if elements.last()@.len() == 2 {
        elements.len() as int
    } else {
        elements.len() - 1
    }
}

/// The elements before the first that is malformed, as pairs to store.
pub open spec fn element_pairs<T: PyValue>(elements: Seq<Vec<PyObjectRc<T>>>) -> Seq<
    (T::Key, PyObjectRc<T>),
> {
    Seq::new(
        first_malformed(elements) as nat,
        |i: int| (elements[i]@[0]@.key(), elements[i]@[1]),
    )
}

/// Comparing the key of any of the elements never changes a dictionary, and
/// hashing and comparing it never fail.
pub open spec fn element_keys_plain<T: PyValue>(elements: Seq<Vec<PyObjectRc<T>>>) -> bool {
    forall|i: int|
        0 <= i < elements.len() && (#[trigger] elements[i])@.len() == 2 ==> elements[i]@[0]@.is_pure()
            && elements[i]@[0]@.is_infallible()
}

proof fn lemma_first_malformed<T>(elements: Seq<Vec<PyObjectRc<T>>>)
    ensures
        0 <= first_malformed(elements) <= elements.len(),
        forall|i: int|
            0 <= i < first_malformed(elements) ==> (#[trigger] elements[i])@.len() == 2,
        first_malformed(elements) < elements.len() ==> elements[first_malformed(elements)]@.len()
            != 2,
    decreases elements.len(),
{
    if elements.len() > 0 {
        lemma_first_malformed(elements.drop_last());
        assert forall|i: int| 0 <= i < first_malformed(elements) implies (
        #[trigger] elements[i])@.len() == 2 by {
            if i < elements.len() - 1 {
                assert(elements.drop_last()[i] == elements[i]);
            }
        }
    }
}

impl<'a, T: PyValue> DictSource<'a, T> {
    /// A dictionary that is given is well formed.
    pub open spec fn wf(&self) -> bool {
        match self {
            DictSource::Dict(d) => d.wf(),
            DictSource::Pairs(_) => true,
        }
    }

    /// The number of items or elements.
    pub open spec fn len(&self) -> nat {
        match self {
            DictSource::Dict(d) => d@.len(),
            DictSource::Pairs(elements) => elements@.len(),
        }
    }

    /// Whether one of the elements does not hold exactly two objects.
    pub open spec fn malformed(&self) -> bool {
        match self {
            DictSource::Dict(_) => false,
            DictSource::Pairs(elements) => first_malformed(elements@) < elements@.len(),
        }
    }

    /// The pairs to store: the items of the dictionary, or the elements
    /// before the first that is malformed.
    pub open spec fn pairs(&self) -> Seq<(T::Key, PyObjectRc<T>)> {
        match self {
            DictSource::Dict(d) => item_pairs(d@),
            DictSource::Pairs(elements) => element_pairs(elements@),
        }
    }

    /// Comparing any of the keys never changes a dictionary, and hashing and
    /// comparing them never fail.
    pub open spec fn plain(&self) -> bool {
        match self {
            DictSource::Dict(d) => all_pure(d@) && all_infallible(d@),
            DictSource::Pairs(elements) => element_keys_plain(elements@),
        }
    }
}

impl<T: PyValue> PyDict<T> {
    /// The hash map behind the dictionary.
    pub closed spec fn entries(&self) -> Dict<T> {
        self.entries
    }

    /// The dictionary is well formed.
    pub open spec fn wf(&self) -> bool {
        self.entries().wf()
    }

    /// The items of the dictionary, in the order of first insertion.
    pub open spec fn view(&self) -> Seq<Item<T>> {
        self.entries()@
    }

    /// The number of changes to the set of keys that the dictionary has
    /// undergone.
    pub open spec fn version(&self) -> nat {
        self.entries().version()
    }

    /// The names and values of attributes, as pairs to store: each value
    /// under the native text that is its name.
    pub open spec fn attribute_pairs(attrs: Seq<(String, PyObjectRc<T>)>) -> Seq<
        (T::Key, PyObjectRc<T>),
    > {
        attrs.map_values(|a: (String, PyObjectRc<T>)| (T::text_key(a.0@), a.1))
    }

    /// The keys `keys`, each with the value `v`, as pairs to store.
    pub open spec fn key_pairs<K: DictKey<T>>(keys: Seq<K>, v: PyObjectRc<T>) -> Seq<
        (T::Key, PyObjectRc<T>),
    > {
        keys.map_values(|k: K| (k.key(), v))
    }

    /// Comparing any of `keys` never changes a dictionary.
    pub open spec fn keys_pure<K: DictKey<T>>(keys: Seq<K>) -> bool {
        forall|i: int| 0 <= i < keys.len() ==> (#[trigger] keys[i]).is_pure()
    }

    /// `items` are what comes of storing `value`, or a none object where no
    /// value is given, under each of `keys` in turn.
    pub open spec fn is_fromkeys<K: DictKey<T>>(
        keys: Seq<K>,
        value: Option<PyObjectRc<T>>,
        items: Seq<Item<T>>,
    ) -> bool {
        match value {
            Some(given) => inserted_all(
                Seq::<Item<T>>::empty(),
                Self::key_pairs(keys, given),
                items,
            ),
            None => exists|v: PyObjectRc<T>|
                v@.is_none() && #[trigger] inserted_all(
                    Seq::<Item<T>>::empty(),
                    Self::key_pairs(keys, v),
                    items,
                ),
        }
    }

    /// What `merge_dict` promises of its result `r`, of the items `before`
    /// and `after` it, and of the items `other` that were merged in.
    pub open spec fn is_merge(
        before: Seq<Item<T>>,
        other: Seq<Item<T>>,
        after: Seq<Item<T>>,
        r: Result<(), DictError<T>>,
    ) -> bool {
        &&& match r {
            Ok(()) => true,
            Err(DictError::Raised(_)) => !all_infallible(other),
            Err(DictError::StructuralChangeDuringIteration) => !all_pure(other),
            Err(_) => false,
        }
        &&& all_pure(other) ==> match r {
            Ok(()) => inserted_all(before, item_pairs(other), after),
            Err(_) => exists|n: int|
                0 <= n < other.len() && inserted_all(
                    before,
                    #[trigger] item_pairs(other).take(n),
                    after,
                ),
        }
    }

    /// What filling a dictionary from `dict_obj` and then from the keyword
    /// arguments `kwargs` comes to, of the items `before` and `after` it and
    /// of its result `r`. It succeeds unless an element of a sequence is
    /// malformed or a key fails or meddles. Where no key does, the pairs of
    /// the source are stored in turn and then the keyword arguments, or, if
    /// an element is malformed, the pairs before it and nothing else.
    pub open spec fn is_filling(
        before: Seq<Item<T>>,
        dict_obj: Option<DictSource<T>>,
        kwargs: Seq<(String, PyObjectRc<T>)>,
        after: Seq<Item<T>>,
        r: Result<(), DictError<T>>,
    ) -> bool {
        &&& match r {
            Ok(()) => !(dict_obj matches Some(source) && source.malformed()),
            Err(DictError::TypeError(TypeErrorKind::NotAPair)) => dict_obj matches Some(
                DictSource::Pairs(_),
            ),
            Err(DictError::Raised(_)) => dict_obj matches Some(source) && !source.plain(),
            Err(DictError::StructuralChangeDuringIteration) => dict_obj matches Some(source)
                && !source.plain(),
            Err(_) => false,
        }
        &&& (dict_obj matches Some(source) ==> source.plain()) ==> match dict_obj {
            Some(source) => if source.malformed() {
                r is Err && inserted_all(before, source.pairs(), after)
            } else {
                r is Ok && inserted_all(
                    before,
                    source.pairs() + Self::attribute_pairs(kwargs),
                    after,
                )
            },
            None => r is Ok && inserted_all(before, Self::attribute_pairs(kwargs), after),
        }
    }

    /// A new, empty dictionary.
    pub fn new() -> (d: Self)
        ensures
            d.wf(),
            d@ == Seq::<Item<T>>::empty(),
            d.version() == 0,
            d.entries().capacity() == MIN_CAPACITY,
            d.entries().log().len() == 0,
            d.entries().used_slots() == 0,
    {
        PyDict { entries: Dict::new() }
    }

    /// Whether the dictionary has an item.
    pub fn bool(&self) -> (r: bool)
        requires
            self.wf(),
        ensures
            r == (self@.len() > 0),
    {
        !self.entries.is_empty()
    }

    /// The number of items.
    pub fn len(&self) -> (n: usize)
        requires
            self.wf(),
        ensures
            n == self@.len(),
    {
        self.entries.len()
    }

    /// Whether there is no item.
    pub fn is_empty(&self) -> (r: bool)
        requires
            self.wf(),
        ensures
            r == (self@.len() == 0),
    {
        self.entries.len() == 0
    }

    /// The storage that the dictionary holds, in units of one index slot or
    /// one log entry, and one unit for the dictionary itself.
    pub fn sizeof(&self) -> (n: usize)
        requires
            self.wf(),
        ensures
            n == 1 + self.entries().capacity() + self.entries().log().len(),
    {
        proof {
            self.entries.lemma_size_bounds();
        }
        1 + self.entries.sizeof()
    }

    /// What the dictionary is made of, in numbers.
    pub fn size(&self) -> (r: DictSize)
        requires
            self.wf(),
        ensures
            r == self.entries().size_spec(),
    {
        self.entries.size()
    }

    /// Whether the dictionary can take another change to its set of keys.
    pub fn has_room(&self) -> (r: bool)
        ensures
            r == (self.version() < VERSION_LIMIT),
    {
        self.entries.has_room()
    }

    /// A dictionary has no hash.
    pub fn hash(&self) -> (r: Result<HashValue, DictError<T>>)
        ensures
            r matches Err(DictError::TypeError(TypeErrorKind::Unhashable)),
    {
        Err(DictError::TypeError(TypeErrorKind::Unhashable))
    }

    /// Whether `key` is in the dictionary.
    pub fn contains<K: DictKey<T>>(&mut self, key: &K) -> (r: Result<bool, DictError<T>>)
        requires
            old(self).wf(),
        ensures
            final(self).wf(),
            old(self).entries().evolves_to(&final(self).entries()),
            old(self).version() < VERSION_LIMIT ==> final(self).version() < VERSION_LIMIT,
            key.is_pure() ==> *final(self) == *old(self),
            key.is_infallible() ==> r is Ok,
            match r {
                Ok(found) => found == has_key(final(self)@, key.key()),
                Err(DictError::Raised(e)) => key.raises(e),
                Err(_) => false,
            },
    {
        self.entries.contains(key)
    }

    /// Whether `key`, which can be hashed and compared without fail, is in
    /// the dictionary.
    pub fn contains_key<K: DictKey<T>>(&mut self, key: K) -> (r: bool)
        requires
            old(self).wf(),
            key.is_infallible(),
        ensures
            final(self).wf(),
            old(self).entries().evolves_to(&final(self).entries()),
            old(self).version() < VERSION_LIMIT ==> final(self).version() < VERSION_LIMIT,
            key.is_pure() ==> *final(self) == *old(self),
            r == has_key(final(self)@, key.key()),
    {
        match self.entries.contains(&key) {
            Ok(found) => found,
            Err(_) => vstd::pervasive::unreached(),
        }
    }

    /// Deletes `key`. Fails with `KeyNotFound`, which carries the key as an
    /// object, if the key is absent.
    pub fn delitem<K: DictKey<T>>(&mut self, key: K) -> (r: Result<(), DictError<T>>)
        requires
            old(self).wf(),
            old(self).version() < VERSION_LIMIT,
        ensures
            final(self).wf(),
            old(self).entries().evolves_to(&final(self).entries()),
            key.is_infallible() ==> !(r matches Err(DictError::Raised(_))),
            !has_key(final(self)@, key.key()) || r matches Err(DictError::Raised(_)),
            match r {
                Ok(()) => true,
                Err(DictError::KeyNotFound(object)) => object@.key() == key.key(),
                Err(DictError::Raised(e)) => key.raises(e),
                Err(_) => false,
            },
            key.is_pure() ==> match r {
                Ok(()) => old(self).entries().removed(&final(self).entries(), key.key()),
                Err(DictError::KeyNotFound(_)) => !has_key(old(self)@, key.key()) && *final(self)
                    == *old(self),
                Err(_) => *final(self) == *old(self),
            },
    {
        self.entries.delete(key)
    }

    /// Deletes every item.
    pub fn clear(&mut self)
        requires
            old(self).wf(),
            old(self).version() < VERSION_LIMIT,
        ensures
            final(self).wf(),
            old(self).entries().evolves_to(&final(self).entries()),
            final(self)@ == Seq::<Item<T>>::empty(),
            final(self).entries().log().len() == 0,
            final(self).version() == old(self).version() + 1,
            final(self).entries().capacity() == MIN_CAPACITY,
            final(self).entries().used_slots() == 0,
    {
        self.entries.clear()
    }

    /// Stores `value` under `key`.
    pub fn setitem<K: DictKey<T>>(&mut self, key: K, value: PyObjectRc<T>) -> (r: Result<
        (),
        DictError<T>,
    >)
        requires
            old(self).wf(),
            old(self).version() < VERSION_LIMIT,
        ensures
            final(self).wf(),
            old(self).entries().evolves_to(&final(self).entries()),
            key.is_infallible() ==> r is Ok,
            match r {
                Ok(()) => items_get(final(self)@, key.key()) == Some(value),
                Err(DictError::Raised(e)) => key.raises(e),
                Err(_) => false,
            },
            key.is_pure() ==> match r {
                Ok(()) => old(self).entries().inserted(&final(self).entries(), key.key(), value),
                Err(_) => *final(self) == *old(self),
            },
    {
        self.inner_setitem_fast(key, value)
    }

    /// Stores `value` under `key`, whatever kind of key it is.
    pub fn inner_setitem_fast<K: DictKey<T>>(&mut self, key: K, value: PyObjectRc<T>) -> (r: Result<
        (),
        DictError<T>,
    >)
        requires
            old(self).wf(),
            old(self).version() < VERSION_LIMIT,
        ensures
            final(self).wf(),
            old(self).entries().evolves_to(&final(self).entries()),
            key.is_infallible() ==> r is Ok,
            match r {
                Ok(()) => items_get(final(self)@, key.key()) == Some(value),
                Err(DictError::Raised(e)) => key.raises(e),
                Err(_) => false,
            },
            key.is_pure() ==> match r {
                Ok(()) => old(self).entries().inserted(&final(self).entries(), key.key(), value),
                Err(_) => *final(self) == *old(self),
            },
    {
        self.entries.insert(key, value)
    }

    /// The value stored under `key`, or `None` if the key is absent.
    pub fn inner_getitem_option<K: DictKey<T>>(&mut self, key: &K) -> (r: Result<
        Option<PyObjectRc<T>>,
        DictError<T>,
    >)
        requires
            old(self).wf(),
        ensures
            final(self).wf(),
            old(self).entries().evolves_to(&final(self).entries()),
            old(self).version() < VERSION_LIMIT ==> final(self).version() < VERSION_LIMIT,
            key.is_pure() ==> *final(self) == *old(self),
            key.is_infallible() ==> r is Ok,
            match r {
                Ok(found) => found == items_get(final(self)@, key.key()),
                Err(DictError::Raised(e)) => key.raises(e),
                Err(_) => false,
            },
    {
        self.entries.get(key)
    }

    /// The value stored under `key`. Fails with `KeyNotFound`, which carries
    /// the key as an object, if the key is absent.
    pub fn getitem<K: DictKey<T>>(&mut self, key: K) -> (r: Result<PyObjectRc<T>, DictError<T>>)
        requires
            old(self).wf(),
        ensures
            final(self).wf(),
            old(self).entries().evolves_to(&final(self).entries()),
            old(self).version() < VERSION_LIMIT ==> final(self).version() < VERSION_LIMIT,
            key.is_pure() ==> *final(self) == *old(self),
            key.is_infallible() ==> !(r matches Err(DictError::Raised(_))),
            match r {
                Ok(value) => items_get(final(self)@, key.key()) == Some(value),
                Err(DictError::KeyNotFound(object)) => object@.key() == key.key() && !has_key(
                    final(self)@,
                    key.key(),
                ),
                Err(DictError::Raised(e)) => key.raises(e),
                Err(_) => false,
            },
    {
        match self.inner_getitem_option(&key) {
            Ok(Some(value)) => Ok(value),
            Ok(None) => Err(DictError::KeyNotFound(key.into_pyobject())),
            Err(e) => Err(e),
        }
    }

    /// The value stored under `key`; if the key is absent, `default`, or the
    /// none object where no default is given.
    pub fn get<K: DictKey<T>>(&mut self, key: &K, default: Option<PyObjectRc<T>>) -> (r: Result<
        PyObjectRc<T>,
        DictError<T>,
    >)
        requires
            old(self).wf(),
        ensures
            final(self).wf(),
            old(self).entries().evolves_to(&final(self).entries()),
            old(self).version() < VERSION_LIMIT ==> final(self).version() < VERSION_LIMIT,
            key.is_pure() ==> *final(self) == *old(self),
            key.is_infallible() ==> r is Ok,
            match r {
                Ok(value) => match items_get(final(self)@, key.key()) {
                    Some(stored) => value == stored,
                    None => match default {
                        Some(d) => value == d,
                        None => value@.is_none(),
                    },
                },
                Err(DictError::Raised(e)) => key.raises(e),
                Err(_) => false,
            },
    {
        match self.entries.get(key) {
            Ok(Some(value)) => Ok(value),
            Ok(None) => Ok(into_pyobject(default)),
            Err(e) => Err(e),
        }
    }

    /// The value stored under `key`; if the key is absent, `default` (or the
    /// none object where no default is given) is stored under it and handed
    /// back.
    pub fn setdefault<K: DictKey<T>>(&mut self, key: K, default: Option<PyObjectRc<T>>) -> (r:
        Result<PyObjectRc<T>, DictError<T>>)
        requires
            old(self).wf(),
            old(self).version() < VERSION_LIMIT,
        ensures
            final(self).wf(),
            old(self).entries().evolves_to(&final(self).entries()),
            key.is_infallible() ==> r is Ok,
            match r {
                Ok(value) => items_get(final(self)@, key.key()) == Some(value),
                Err(DictError::Raised(e)) => key.raises(e),
                Err(_) => false,
            },
            key.is_pure() ==> match r {
                Ok(value) => match items_get(old(self)@, key.key()) {
                    Some(stored) => value == stored && *final(self) == *old(self),
                    None => {
                        &&& old(self).entries().inserted(&final(self).entries(), key.key(), value)
                        &&& match default {
                            Some(d) => value == d,
                            None => value@.is_none(),
                        }
                    },
                },
                Err(_) => *final(self) == *old(self),
            },
    {
        let ghost before = self.entries;
        match self.entries.get(&key) {
            Ok(Some(value)) => Ok(value),
            Ok(None) => {
                let ghost mid = self.entries;
                let set_value = into_pyobject(default);
                let stored = self.entries.insert(key, set_value.clone());
                proof {
                    Dict::lemma_evolves(&before, &mid, &self.entries);
                }
                match stored {
                    Ok(()) => Ok(set_value),
                    Err(e) => Err(e),
                }
            },
            Err(e) => Err(e),
        }
    }

    /// A dictionary of its own with the same items, which hold handles to
    /// the same objects.
    pub fn copy(&self) -> (r: Self)
        requires
            self.wf(),
        ensures
            r.wf(),
            r@ == self@,
            r.entries().log() == self.entries().log(),
            r.entries().size_spec() == self.entries().size_spec(),
    {
        PyDict { entries: self.entries.clone() }
    }

    /// Deletes `key` and hands its value back; if the key is absent,
    /// `default`. Fails with `KeyNotFound`, which carries the key as an
    /// object, if the key is absent and no default is given.
    pub fn pop<K: DictKey<T>>(&mut self, key: K, default: Option<PyObjectRc<T>>) -> (r: Result<
        PyObjectRc<T>,
        DictError<T>,
    >)
        requires
            old(self).wf(),
            old(self).version() < VERSION_LIMIT,
        ensures
            final(self).wf(),
            old(self).entries().evolves_to(&final(self).entries()),
            key.is_infallible() ==> !(r matches Err(DictError::Raised(_))),
            !has_key(final(self)@, key.key()) || r matches Err(DictError::Raised(_)),
            match r {
                Ok(_) => true,
                Err(DictError::KeyNotFound(object)) => object@.key() == key.key() && default is None,
                Err(DictError::Raised(e)) => key.raises(e),
                Err(_) => false,
            },
            key.is_pure() ==> match r {
                Ok(value) => match items_get(old(self)@, key.key()) {
                    Some(stored) => value == stored && old(self).entries().removed(
                        &final(self).entries(),
                        key.key(),
                    ),
                    None => default == Some(value) && *final(self) == *old(self),
                },
                Err(DictError::KeyNotFound(_)) => !has_key(old(self)@, key.key()) && *final(self)
                    == *old(self),
                Err(_) => *final(self) == *old(self),
            },
    {
        match self.entries.pop(&key) {
            Ok(Some(value)) => Ok(value),
            Ok(None) => match default {
                Some(d) => Ok(d),
                None => Err(DictError::KeyNotFound(key.into_pyobject())),
            },
            Err(e) => Err(e),
        }
    }

    /// Deletes the item that was inserted last and hands it back. Fails with
    /// `EmptyCollectionOnPop` if the dictionary is empty.
    pub fn popitem(&mut self) -> (r: Result<Item<T>, DictError<T>>)
        requires
            old(self).wf(),
            old(self)@.len() > 0 ==> old(self).version() < VERSION_LIMIT,
        ensures
            final(self).wf(),
            old(self).entries().evolves_to(&final(self).entries()),
            match r {
                Ok(item) => old(self).entries().popped(&final(self).entries(), item),
                Err(DictError::EmptyCollectionOnPop) => old(self)@.len() == 0 && *final(self)
                    == *old(self),
                Err(_) => false,
            },
    {
        match self.entries.pop_most_recent() {
            Ok(Some(item)) => Ok(item),
            Ok(None) => vstd::pervasive::unreached(),
            Err(e) => Err(e),
        }
    }

    /// Stores each attribute in turn, its value under its name.
    fn insert_attributes(&mut self, attrs: PyAttributes<T>)
        requires
            old(self).wf(),
            old(self).version() + attrs@.len() <= VERSION_LIMIT,
        ensures
            final(self).wf(),
            old(self).entries().evolves_to(&final(self).entries()),
            inserted_all(old(self)@, Self::attribute_pairs(attrs@), final(self)@),
            final(self).version() <= old(self).version() + attrs@.len(),
            all_text_keys(old(self)@) ==> all_text_keys(final(self)@),
    {
        let ghost given = attrs@;
        let ghost all = Self::attribute_pairs(given);
        let ghost n = given.len();
        proof {
            Dict::lemma_evolves(&self.entries, &self.entries, &self.entries);
        }
        for attr in iter: attrs.into_iter()
            invariant
                iter.seq() == given,
                all == Self::attribute_pairs(given),
                n == given.len(),
                self.wf(),
                old(self).entries().evolves_to(&self.entries()),
                self.version() <= old(self).version() + iter.index(),
                old(self).version() + n <= VERSION_LIMIT,
                inserted_all(old(self)@, all.take(iter.index() as int), self@),
                all_text_keys(old(self)@) ==> all_text_keys(self@),
        {
            let ghost before = self.entries;
            let ghost i = iter.index() as int;
            let (name, value) = attr;
            let _stored = self.entries.insert(name, value);
            proof {
                if all_text_keys(before@) {
                    lemma_text_keys_kept(before@, self@, name@, value);
                }
                Dict::lemma_evolves(&old(self).entries(), &before, &self.entries());
                lemma_inserted_all_push(
                    old(self)@,
                    all.take(i),
                    before@,
                    T::text_key(name@),
                    value,
                    self@,
                );
                assert(all.take(i + 1) == all.take(i).push(all[i]));
            }
        }
        proof {
            assert(all.take(n as int) == all);
        }
    }

    /// The dictionary of the attributes `attrs`: each value under the native
    /// text that is its name, in order; where a name comes twice the later
    /// value stands at the place of the first.
    pub fn from_attributes(attrs: PyAttributes<T>) -> (r: Result<Self, DictError<T>>)
        requires
            attrs@.len() <= VERSION_LIMIT,
        ensures
            r matches Ok(d) && d.wf() && inserted_all(
                Seq::<Item<T>>::empty(),
                Self::attribute_pairs(attrs@),
                d@,
            ) && d.version() <= attrs@.len() && all_text_keys(d@),
    {
        let mut dict = PyDict::new();
        dict.insert_attributes(attrs);
        Ok(dict)
    }

    /// Stores each item of `other` in turn, its value under its key. Fails
    /// with the exception of a key that cannot be hashed or compared, and
    /// with `StructuralChangeDuringIteration` if the comparisons have changed
    /// this dictionary so often that it can take no further key.
    pub fn merge_dict(&mut self, other: &PyDict<T>) -> (r: Result<(), DictError<T>>)
        requires
            old(self).wf(),
            other.wf(),
            old(self).version() + other@.len() <= VERSION_LIMIT,
        ensures
            final(self).wf(),
            old(self).entries().evolves_to(&final(self).entries()),
            Self::is_merge(old(self)@, other@, final(self)@, r),
            all_pure(other@) ==> final(self).version() <= old(self).version() + other@.len(),
    {
        let ghost pairs = item_pairs(other@);
        let ghost log = other.entries().log();
        let mut position: usize = 0;
        proof {
            Dict::lemma_evolves(&self.entries, &self.entries, &self.entries);
        }
        loop
            invariant
                self.wf(),
                other.wf(),
                log == other.entries().log(),
                pairs == item_pairs(other@),
                old(self).version() + other@.len() <= VERSION_LIMIT,
                old(self).entries().evolves_to(&self.entries()),
                position <= log.len(),
                rank(log, position as int) <= other@.len(),
                all_pure(other@) ==> self.version() <= old(self).version() + rank(
                    log,
                    position as int,
                ) && inserted_all(old(self)@, pairs.take(rank(log, position as int)), self@),
            decreases log.len() - position,
        {
            let ghost done = rank(log, position as int);
            let ghost before = self.entries;
            match other.entries.next_live_entry(position) {
                Some((key, value, next)) => {
                    proof {
                        lemma_live_items_take(log, next as int);
                    }
                    if !self.entries.has_room() {
                        return Err(DictError::StructuralChangeDuringIteration);
                    }
                    match self.entries.insert(key, value) {
                        Ok(()) => {},
                        Err(e) => {
                            proof {
                                Dict::lemma_evolves(&old(self).entries(), &before, &self.entries());
                            }
                            return Err(e);
                        },
                    }
                    proof {
                        Dict::lemma_evolves(&old(self).entries(), &before, &self.entries());
                        if all_pure(other@) {
                            lemma_inserted_all_push(
                                old(self)@,
                                pairs.take(done),
                                before@,
                                key@.key(),
                                value,
                                self@,
                            );
                            assert(pairs.take(done + 1) == pairs.take(done).push(pairs[done]));
                        }
                    }
                    position = next;
                },
                None => {
                    proof {
                        assert(pairs.take(done) == pairs);
                    }
                    return Ok(());
                },
            }
        }
    }

    /// Stores the key and the value of each element in turn, up to the first
    /// element that does not hold exactly two objects.
    fn merge_pairs(&mut self, elements: &Vec<Vec<PyObjectRc<T>>>) -> (r: Result<(), DictError<T>>)
        requires
            old(self).wf(),
            old(self).version() + elements@.len() <= VERSION_LIMIT,
        ensures
            final(self).wf(),
            old(self).entries().evolves_to(&final(self).entries()),
            match r {
                Ok(()) => first_malformed(elements@) == elements@.len(),
                Err(DictError::TypeError(TypeErrorKind::NotAPair)) => true,
                Err(DictError::Raised(_)) => !element_keys_plain(elements@),
                Err(DictError::StructuralChangeDuringIteration) => !element_keys_plain(elements@),
                Err(_) => false,
            },
            element_keys_plain(elements@) ==> final(self).version() <= old(self).version()
                + elements@.len() && inserted_all(
                old(self)@,
                element_pairs(elements@),
                final(self)@,
            ) && (r is Err ==> first_malformed(elements@) < elements@.len()),
    {
        let ghost pairs = element_pairs(elements@);
        let mut i: usize = 0;
        proof {
            Dict::lemma_evolves(&self.entries, &self.entries, &self.entries);
            lemma_first_malformed(elements@);
        }
        while i < elements.len()
            invariant
                self.wf(),
                old(self).version() + elements@.len() <= VERSION_LIMIT,
                old(self).entries().evolves_to(&self.entries()),
                pairs == element_pairs(elements@),
                i <= elements@.len(),
                i <= first_malformed(elements@),
                element_keys_plain(elements@) ==> self.version() <= old(self).version() + i
                    && inserted_all(old(self)@, pairs.take(i as int), self@),
            decreases elements@.len() - i,
        {
            proof {
                lemma_first_malformed(elements@);
            }
            let element = &elements[i];
            if element.len() != 2 {
                proof {
                    assert(pairs.take(i as int) == pairs);
                }
                return Err(DictError::TypeError(TypeErrorKind::NotAPair));
            }
            if !self.entries.has_room() {
                return Err(DictError::StructuralChangeDuringIteration);
            }
            let ghost before = self.entries;
            let key = element[0].clone();
            let value = element[1].clone();
            match self.entries.insert(key, value) {
                Ok(()) => {},
                Err(e) => {
                    proof {
                        Dict::lemma_evolves(&old(self).entries(), &before, &self.entries());
                    }
                    return Err(e);
                },
            }
            proof {
                Dict::lemma_evolves(&old(self).entries(), &before, &self.entries());
                if element_keys_plain(elements@) {
                    lemma_inserted_all_push(
                        old(self)@,
                        pairs.take(i as int),
                        before@,
                        key@.key(),
                        value,
                        self@,
                    );
                    assert(pairs.take(i + 1) == pairs.take(i as int).push(pairs[i as int]));
                }
            }
            i += 1;
        }
        proof {
            assert(pairs.take(i as int) == pairs);
        }
        Ok(())
    }

    /// Fills the dictionary from `dict_obj`, if there is one, and then from
    /// the keyword arguments `kwargs`, each value under the native text that
    /// is its name. Fails with `TypeError(NotAPair)` at the first element of
    /// a sequence that does not hold exactly two objects; what came before
    /// it has been stored then, and nothing after it.
    pub fn merge(&mut self, dict_obj: Option<DictSource<T>>, kwargs: PyAttributes<T>) -> (r: Result<
        (),
        DictError<T>,
    >)
        requires
            old(self).wf(),
            dict_obj matches Some(source) ==> source.wf(),
            old(self).version() + (match dict_obj {
                Some(source) => source.len(),
                None => 0,
            }) + kwargs@.len() <= VERSION_LIMIT,
        ensures
            final(self).wf(),
            old(self).entries().evolves_to(&final(self).entries()),
            Self::is_filling(old(self)@, dict_obj, kwargs@, final(self)@, r),
    {
        let ghost start = self.entries;
        match &dict_obj {
            Some(DictSource::Dict(other)) => {
                match self.merge_dict(other) {
                    Ok(()) => {},
                    Err(e) => {
                        return Err(e);
                    },
                }
            },
            Some(DictSource::Pairs(elements)) => {
                match self.merge_pairs(elements) {
                    Ok(()) => {},
                    Err(e) => {
                        return Err(e);
                    },
                }
            },
            None => {},
        }
        let ghost mid = self.entries;
        if self.entries.room() < kwargs.len() {
            return Err(DictError::StructuralChangeDuringIteration);
        }
        self.insert_attributes(kwargs);
        proof {
            Dict::lemma_evolves(&start, &mid, &self.entries);
            match dict_obj {
                Some(source) => {
                    if source.plain() {
                        lemma_inserted_all_concat(
                            old(self)@,
                            source.pairs(),
                            mid@,
                            Self::attribute_pairs(kwargs@),
                            self@,
                        );
                    }
                },
                None => {},
            }
        }
        Ok(())
    }

    /// Fills the dictionary as `merge` does.
    pub fn init(&mut self, dict_obj: Option<DictSource<T>>, kwargs: PyAttributes<T>) -> (r: Result<
        (),
        DictError<T>,
    >)
        requires
            old(self).wf(),
            dict_obj matches Some(source) ==> source.wf(),
            old(self).version() + (match dict_obj {
                Some(source) => source.len(),
                None => 0,
            }) + kwargs@.len() <= VERSION_LIMIT,
        ensures
            final(self).wf(),
            old(self).entries().evolves_to(&final(self).entries()),
            Self::is_filling(old(self)@, dict_obj, kwargs@, final(self)@, r),
    {
        self.merge(dict_obj, kwargs)
    }

    /// Fills the dictionary as `merge` does.
    pub fn update(&mut self, dict_obj: Option<DictSource<T>>, kwargs: PyAttributes<T>) -> (r:
        Result<(), DictError<T>>)
        requires
            old(self).wf(),
            dict_obj matches Some(source) ==> source.wf(),
            old(self).version() + (match dict_obj {
                Some(source) => source.len(),
                None => 0,
            }) + kwargs@.len() <= VERSION_LIMIT,
        ensures
            final(self).wf(),
            old(self).entries().evolves_to(&final(self).entries()),
            Self::is_filling(old(self)@, dict_obj, kwargs@, final(self)@, r),
    {
        self.merge(dict_obj, kwargs)
    }

    /// The dictionary that holds `value` (or the none object where no value
    /// is given) under each of `keys`, in order.
    pub fn fromkeys<K: DictKey<T>>(keys: Vec<K>, value: Option<PyObjectRc<T>>) -> (r: Result<
        Self,
        DictError<T>,
    >)
        requires
            keys@.len() <= VERSION_LIMIT,
        ensures
            match r {
                Ok(d) => d.wf(),
                Err(DictError::Raised(_)) => exists|i: int|
                    0 <= i < keys@.len() && !(#[trigger] keys@[i]).is_infallible(),
                Err(DictError::StructuralChangeDuringIteration) => !Self::keys_pure(keys@),
                Err(_) => false,
            },
            Self::keys_pure(keys@) ==> (r matches Ok(d) ==> Self::is_fromkeys(keys@, value, d@)),
    {
        let mut dict: PyDict<T> = PyDict::new();
        let filler = into_pyobject(value);
        let ghost all = Self::key_pairs(keys@, filler);
        let ghost n = keys@.len();
        let ghost ks = keys@;
        for key in iter: keys.into_iter()
            invariant
                iter.seq() == ks,
                ks.len() == n,
                n <= VERSION_LIMIT,
                all == Self::key_pairs(ks, filler),
                dict.wf(),
                Self::keys_pure(ks) ==> dict.version() <= iter.index() && inserted_all(
                    Seq::<Item<T>>::empty(),
                    all.take(iter.index() as int),
                    dict@,
                ),
        {
            let ghost i = iter.index() as int;
            let ghost before = dict.entries;
            if !dict.entries.has_room() {
                return Err(DictError::StructuralChangeDuringIteration);
            }
            match dict.entries.insert(key, filler.clone()) {
                Ok(()) => {},
                Err(e) => {
                    return Err(e);
                },
            }
            proof {
                if Self::keys_pure(ks) {
                    lemma_inserted_all_push(
                        Seq::<Item<T>>::empty(),
                        all.take(i),
                        before@,
                        key.key(),
                        filler,
                        dict@,
                    );
                    assert(all.take(i + 1) == all.take(i).push(all[i]));
                }
            }
        }
        proof {
            assert(all.take(n as int) == all);
        }
        Ok(dict)
    }

    /// Merges the dictionary `other` into this one. Fails with
    /// `TypeError(NotADict)`, and changes nothing, if there is no dictionary.
    pub fn ior(&mut self, other: Option<&PyDict<T>>) -> (r: Result<(), DictError<T>>)
        requires
            old(self).wf(),
            other matches Some(d) ==> d.wf() && old(self).version() + d@.len() <= VERSION_LIMIT,
        ensures
            final(self).wf(),
            old(self).entries().evolves_to(&final(self).entries()),
            match other {
                Some(d) => Self::is_merge(old(self)@, d@, final(self)@, r),
                None => r matches Err(DictError::TypeError(TypeErrorKind::NotADict)) && *final(self)
                    == *old(self),
            },
    {
        match other {
            Some(d) => self.merge_dict(d),
            None => {
                proof {
                    Dict::lemma_evolves(&self.entries, &self.entries, &self.entries);
                }
                Err(DictError::TypeError(TypeErrorKind::NotADict))
            },
        }
    }

    /// A new dictionary: a copy of this one with the dictionary `other`
    /// merged into it. Fails with `TypeError(NotADict)` if there is no
    /// dictionary.
    pub fn or(&self, other: Option<&PyDict<T>>) -> (r: Result<PyDict<T>, DictError<T>>)
        requires
            self.wf(),
            other matches Some(d) ==> d.wf() && self.version() + d@.len() <= VERSION_LIMIT,
        ensures
            match other {
                Some(d) => match r {
                    Ok(merged) => merged.wf() && Self::is_merge(self@, d@, merged@, Ok(())),
                    Err(e) => exists|partial: Seq<Item<T>>|
                        #[trigger] Self::is_merge(self@, d@, partial, Err(e)),
                },
                None => r matches Err(DictError::TypeError(TypeErrorKind::NotADict)),
            },
    {
        match other {
            Some(d) => {
                let mut merged = self.copy();
                proof {
                    self.entries.lemma_same_size(&merged.entries);
                }
                match merged.merge_dict(d) {
                    Ok(()) => Ok(merged),
                    Err(e) => {
                        Err(e)
                    },
                }
            },
            None => Err(DictError::TypeError(TypeErrorKind::NotADict)),
        }
    }

    /// A new dictionary: a copy of the dictionary `other` with this one
    /// merged into it. Fails with `TypeError(NotADict)` if there is no
    /// dictionary.
    pub fn ror(&self, other: Option<&PyDict<T>>) -> (r: Result<PyDict<T>, DictError<T>>)
        requires
            self.wf(),
            other matches Some(d) ==> d.wf() && d.version() + self@.len() <= VERSION_LIMIT,
        ensures
            match other {
                Some(d) => match r {
                    Ok(merged) => merged.wf() && Self::is_merge(d@, self@, merged@, Ok(())),
                    Err(e) => exists|partial: Seq<Item<T>>|
                        #[trigger] Self::is_merge(d@, self@, partial, Err(e)),
                },
                None => r matches Err(DictError::TypeError(TypeErrorKind::NotADict)),
            },
    {
        match other {
            Some(d) => {
                let mut merged = d.copy();
                proof {
                    d.entries.lemma_same_size(&merged.entries);
                }
                match merged.merge_dict(self) {
                    Ok(()) => Ok(merged),
                    Err(e) => {
                        Err(e)
                    },
                }
            },
            None => Err(DictError::TypeError(TypeErrorKind::NotADict)),
        }
    }

    /// Whether the dictionary differs from what it was when `size` gave
    /// `snapshot`.
    pub fn has_structurally_changed(&self, snapshot: &DictSize) -> (r: bool)
        requires
            self.wf(),
        ensures
            r == (self.entries().size_spec() != *snapshot),
    {
        self.entries.has_structurally_changed(snapshot)
    }

    /// The first live entry at or after log position `position`: its key, its
    /// value, and the position to go on from.
    pub fn next_live_entry(&self, position: usize) -> (r: Option<(PyObjectRc<T>, PyObjectRc<T>, usize)>)
        requires
            self.wf(),
        ensures
            match first_live_from(self.entries().log(), position as int) {
                Some(i) => r matches Some(found) && self.entries().log()[i] == Some(
                    (found.0, found.1),
                ) && found.2 == i + 1,
                None => r is None,
            },
            r matches Some(found) ==> position < found.2 <= self.entries().log().len() && rank(
                self.entries().log(),
                found.2 as int,
            ) == rank(self.entries().log(), position as int) + 1 && self@[rank(
                self.entries().log(),
                position as int,
            )] == (found.0, found.1),
            r is None ==> live_count_from(self.entries().log(), position as int) == 0,
    {
        self.entries.next_live_entry(position)
    }

    /// The number of live entries at or after log position `position`.
    pub fn length_from(&self, position: usize) -> (n: usize)
        requires
            self.wf(),
        ensures
            n == live_count_from(self.entries().log(), position as int),
    {
        self.entries.length_from(position)
    }

    /// The item at place `n`, counted from the first.
    pub fn nth_live(&self, n: usize) -> (r: Option<Item<T>>)
        requires
            self.wf(),
        ensures
            r == if n < self@.len() {
                Some(self@[n as int])
            } else {
                None
            },
    {
        self.entries.nth_live(n)
    }

    /// An iterator over the keys of the dictionary as it is now.
    pub fn iter(&self) -> (it: PyDictIterator)
        requires
            self.wf(),
        ensures
            it.kind() == DictViewKind::Keys,
            it.snapshot() == self.entries().size_spec(),
            it.position() == 0,
    {
        PyDictIterator::new(self, DictViewKind::Keys)
    }

    /// An iterator over the keys of the dictionary as it is now, against the
    /// order of insertion.
    pub fn reversed(&self) -> (it: PyDictReverseIterator)
        requires
            self.wf(),
        ensures
            it.kind() == DictViewKind::Keys,
            it.snapshot() == self.entries().size_spec(),
            it.consumed() == 0,
    {
        PyDictReverseIterator::new(self, DictViewKind::Keys)
    }

    /// The view of the keys.
    pub fn keys(&self) -> (v: PyDictView)
        ensures
            v.kind == DictViewKind::Keys,
    {
        PyDictView::new(DictViewKind::Keys)
    }

    /// The view of the values.
    pub fn values(&self) -> (v: PyDictView)
        ensures
            v.kind == DictViewKind::Values,
    {
        PyDictView::new(DictViewKind::Values)
    }

    /// The view of the items.
    pub fn items(&self) -> (v: PyDictView)
        ensures
            v.kind == DictViewKind::Items,
    {
        PyDictView::new(DictViewKind::Items)
    }

}

/// A lookup that failed because the key was reported missing is a lookup
/// that found nothing: an exception that says that a key is missing becomes
/// `Ok(None)`, and everything else stays as it is.
pub fn missing_if_key_error<T: PyValue>(
    looked_up: Result<Option<PyObjectRc<T>>, DictError<T>>,
) -> (r: Result<Option<PyObjectRc<T>>, DictError<T>>)
    ensures
        r == match looked_up {
            Ok(found) => Ok(found),
            Err(DictError::Raised(exception)) => if exception@.is_key_error() {
                Ok(None)
            } else {
                Err(DictError::Raised(exception))
            },
            Err(DictError::KeyNotFound(_)) => Ok(None),
            Err(e) => Err(e),
        },
{
    match looked_up {
        Ok(found) => Ok(found),
        Err(DictError::Raised(exception)) => {
            if exception.as_ref().key_error() {
                Ok(None)
            } else {
                Err(DictError::Raised(exception))
            }
        },
        Err(DictError::KeyNotFound(_)) => Ok(None),
        Err(e) => Err(e),
    }
}

/// A dictionary as the runtime holds it.
pub struct PyDictRef<T> {
    dict: PyDict<T>,
}

impl<T: PyValue> PyDictRef<T> {
    /// The dictionary that is held.
    pub closed spec fn dict(&self) -> PyDict<T> {
        self.dict
    }

    /// The dictionary is well formed.
    pub open spec fn wf(&self) -> bool {
        self.dict().wf()
    }

    /// The items of the dictionary, in the order of first insertion.
    pub open spec fn view(&self) -> Seq<Item<T>> {
        self.dict()@
    }

    /// Takes hold of `dict`.
    pub fn new(dict: PyDict<T>) -> (r: Self)
        ensures
            r.dict() == dict,
    {
        PyDictRef { dict }
    }

    /// The dictionary that is held.
    pub fn as_dict(&self) -> (d: &PyDict<T>)
        ensures
            *d == self.dict(),
    {
        &self.dict
    }

    /// Lets go of the dictionary.
    pub fn into_inner(self) -> (d: PyDict<T>)
        ensures
            d == self.dict(),
    {
        self.dict
    }

    /// Every key of the dictionary is a native text.
    pub open spec fn text_keyed(&self) -> bool {
        all_text_keys(self@)
    }

    /// The items as attributes: each value with the text of its key as its
    /// name, in order. Every key has to be a native text.
    pub fn to_attributes(self) -> (attrs: PyAttributes<T>)
        requires
            self.wf(),
            self.text_keyed(),
        ensures
            attrs@.len() == self@.len(),
            forall|i: int|
                0 <= i < self@.len() ==> self@[i].0@.text() == Some((#[trigger] attrs@[i]).0@)
                    && attrs@[i].1 == self@[i].1,
    {
        let mut attrs: PyAttributes<T> = Vec::new();
        let mut position: usize = 0;
        let ghost log = self.dict.entries().log();
        loop
            invariant
                self.wf(),
                self.text_keyed(),
                log == self.dict.entries().log(),
                position <= log.len(),
                attrs@.len() == rank(log, position as int),
                attrs@.len() <= self@.len(),
                forall|i: int|
                    0 <= i < attrs@.len() ==> self@[i].0@.text() == Some((#[trigger] attrs@[i]).0@)
                        && attrs@[i].1 == self@[i].1,
            decreases log.len() - position,
        {
            match self.dict.next_live_entry(position) {
                Some((key, value, next)) => {
                    proof {
                        lemma_live_items_take(log, next as int);
                    }
                    let name = match key.as_ref().as_text() {
                        Some(text) => text.to_owned(),
                        None => vstd::pervasive::unreached(),
                    };
                    attrs.push((name, value));
                    position = next;
                },
                None => {
                    return attrs;
                },
            }
        }
    }

    /// The value stored under `key`, or `None` if the key is absent or
    /// hashing or comparing it fails with an exception that says that a key
    /// is missing.
    pub fn get_item_option<K: DictKey<T>>(&mut self, key: &K) -> (r: Result<
        Option<PyObjectRc<T>>,
        DictError<T>,
    >)
        requires
            old(self).wf(),
        ensures
            final(self).wf(),
            old(self).dict().entries().evolves_to(&final(self).dict().entries()),
            old(self).dict().version() < VERSION_LIMIT ==> final(self).dict().version()
                < VERSION_LIMIT,
            key.is_pure() ==> *final(self) == *old(self),
            key.is_infallible() ==> r == Ok::<Option<PyObjectRc<T>>, DictError<T>>(
                items_get(final(self)@, key.key()),
            ),
            match r {
                Ok(Some(value)) => items_get(final(self)@, key.key()) == Some(value),
                Ok(None) => !has_key(final(self)@, key.key()) || exists|e: PyObjectRc<T>|
                    #[trigger] key.raises(e) && e@.is_key_error(),
                Err(DictError::Raised(e)) => key.raises(e) && !e@.is_key_error(),
                Err(_) => false,
            },
    {
        missing_if_key_error(self.dict.inner_getitem_option(key))
    }

    /// The value stored under `key`. Fails with `KeyNotFound` if the key is
    /// absent.
    pub fn get_item<K: DictKey<T>>(&mut self, key: K) -> (r: Result<PyObjectRc<T>, DictError<T>>)
        requires
            old(self).wf(),
        ensures
            final(self).wf(),
            old(self).dict().entries().evolves_to(&final(self).dict().entries()),
            key.is_pure() ==> *final(self) == *old(self),
            key.is_infallible() ==> !(r matches Err(DictError::Raised(_))),
            match r {
                Ok(value) => items_get(final(self)@, key.key()) == Some(value),
                Err(DictError::KeyNotFound(object)) => object@.key() == key.key() && !has_key(
                    final(self)@,
                    key.key(),
                ),
                Err(DictError::Raised(e)) => key.raises(e),
                Err(_) => false,
            },
    {
        self.dict.getitem(key)
    }

    /// Stores `value` under `key`.
    pub fn set_item<K: DictKey<T>>(&mut self, key: K, value: PyObjectRc<T>) -> (r: Result<
        (),
        DictError<T>,
    >)
        requires
            old(self).wf(),
            old(self).dict().version() < VERSION_LIMIT,
        ensures
            final(self).wf(),
            old(self).dict().entries().evolves_to(&final(self).dict().entries()),
            key.is_infallible() ==> r is Ok,
            match r {
                Ok(()) => items_get(final(self)@, key.key()) == Some(value),
                Err(DictError::Raised(e)) => key.raises(e),
                Err(_) => false,
            },
            key.is_pure() ==> match r {
                Ok(()) => old(self).dict().entries().inserted(
                    &final(self).dict().entries(),
                    key.key(),
                    value,
                ),
                Err(_) => *final(self) == *old(self),
            },
    {
        self.dict.inner_setitem_fast(key, value)
    }

    /// Deletes `key`. Fails with `KeyNotFound` if the key is absent.
    pub fn del_item<K: DictKey<T>>(&mut self, key: K) -> (r: Result<(), DictError<T>>)
        requires
            old(self).wf(),
            old(self).dict().version() < VERSION_LIMIT,
        ensures
            final(self).wf(),
            old(self).dict().entries().evolves_to(&final(self).dict().entries()),
            key.is_infallible() ==> !(r matches Err(DictError::Raised(_))),
            !has_key(final(self)@, key.key()) || r matches Err(DictError::Raised(_)),
            match r {
                Ok(()) => true,
                Err(DictError::KeyNotFound(object)) => object@.key() == key.key(),
                Err(DictError::Raised(e)) => key.raises(e),
                Err(_) => false,
            },
            key.is_pure() ==> match r {
                Ok(()) => old(self).dict().entries().removed(
                    &final(self).dict().entries(),
                    key.key(),
                ),
                Err(DictError::KeyNotFound(_)) => !has_key(old(self)@, key.key()) && *final(self)
                    == *old(self),
                Err(_) => *final(self) == *old(self),
            },
    {
        self.dict.delitem(key)
    }

    /// An iterator over the items, which takes the dictionary with it.
    pub fn into_iter(self) -> (it: DictIter<T>)
        ensures
            it.dict() == self,
            it.position() == 0,
    {
        DictIter::new(self)
    }
}

/// An iterator over the items of a dictionary that it holds.
pub struct DictIter<T> {
    dict: PyDictRef<T>,
    position: usize,
}

impl<T: PyValue> DictIter<T> {
    /// The dictionary that is iterated over.
    pub closed spec fn dict(&self) -> PyDictRef<T> {
        self.dict
    }

    /// The log position from which the iterator goes on.
    pub closed spec fn position(&self) -> int {
        self.position as int
    }

    /// The items that are left, in order.
    pub open spec fn remaining(&self) -> Seq<Item<T>> {
        let log = self.dict().dict().entries().log();
        if 0 <= self.position() <= log.len() {
            self.dict()@.skip(rank(log, self.position()))
        } else {
            Seq::empty()
        }
    }

    /// An iterator over the items of `dict`, from the first.
    pub fn new(dict: PyDictRef<T>) -> (it: DictIter<T>)
        ensures
            it.dict() == dict,
            it.position() == 0,
    {
        DictIter { dict, position: 0 }
    }

    /// The next item, or `None` when no item is left.
    pub fn next(&mut self) -> (r: Option<Item<T>>)
        requires
            old(self).dict().wf(),
        ensures
            final(self).dict() == old(self).dict(),
            match r {
                Some(item) => old(self).remaining().len() > 0 && item == old(self).remaining()[0]
                    && final(self).remaining() == old(self).remaining().skip(1),
                None => old(self).remaining().len() == 0 && final(self).position() == old(
                    self,
                ).position(),
            },
    {
        let ghost log = self.dict.dict().entries().log();
        match self.dict.dict.next_live_entry(self.position) {
            Some((key, value, next)) => {
                proof {
                    lemma_live_items_take(log, next as int);
                }
                self.position = next;
                Some((key, value))
            },
            None => None,
        }
    }

    /// The number of items that are left, as the least and the most that it
    /// can be.
    pub fn size_hint(&self) -> (r: (usize, Option<usize>))
        requires
            self.dict().wf(),
        ensures
            r.0 == self.remaining().len(),
            r.1 == Some(r.0),
    {
        let left = self.dict.dict.length_from(self.position);
        (left, Some(left))
    }
}

/// A dictionary that was made from a mapping or a sequence of pairs.
pub struct PyMapping<T> {
    dict: PyDictRef<T>,
}

impl<T: PyValue> PyMapping<T> {
    /// The dictionary that was made.
    pub closed spec fn dict(&self) -> PyDictRef<T> {
        self.dict
    }

    /// Makes a dictionary and fills it from `source`.
    pub fn try_from_object(source: DictSource<T>) -> (r: Result<Self, DictError<T>>)
        requires
            source.wf(),
            source.len() <= VERSION_LIMIT,
        ensures
            match r {
                Ok(mapping) => mapping.dict().wf() && !source.malformed(),
                Err(DictError::TypeError(TypeErrorKind::NotAPair)) => source is Pairs,
                Err(DictError::Raised(_)) => !source.plain(),
                Err(DictError::StructuralChangeDuringIteration) => !source.plain(),
                Err(_) => false,
            },
            source.plain() ==> if source.malformed() {
                r is Err
            } else {
                r matches Ok(mapping) && inserted_all(
                    Seq::<Item<T>>::empty(),
                    source.pairs(),
                    mapping.dict()@,
                )
            },
    {
        let mut dict: PyDict<T> = PyDict::new();
        match dict.merge(Some(source), Vec::new()) {
            Ok(()) => {
                Ok(PyMapping { dict: PyDictRef::new(dict) })
            },
            Err(e) => Err(e),
        }
    }

    /// The dictionary that was made.
    pub fn into_dict(self) -> (d: PyDictRef<T>)
        ensures
            d == self.dict(),
    {
        self.dict
    }
}

/// The items, of `zelf` and `other`, whose keys a comparison looks up in the
/// other and whose values it compares: those of the one with fewer items,
/// and those of `other` where both have as many.
pub open spec fn smaller<T: PyValue>(zelf: Seq<Item<T>>, other: Seq<Item<T>>) -> Seq<Item<T>> {
    if zelf.len() < other.len() {
        zelf
    } else {
        other
    }
}

/// Hashing and comparing the keys of both dictionaries never fail and never
/// change a dictionary.
pub open spec fn plain_keys<T: PyValue>(zelf: Seq<Item<T>>, other: Seq<Item<T>>) -> bool {
    all_pure(zelf) && all_infallible(zelf) && all_pure(other) && all_infallible(other)
}

/// Every key of `small` is a key of `big`, and, where `item` is asked for,
/// with a value that equals its value in `small`.
pub open spec fn covers<T: PyValue>(big: Seq<Item<T>>, small: Seq<Item<T>>, item: bool) -> bool {
    forall|i: int| 0 <= i < small.len() ==> #[trigger] covers_at(big, small, item, i)
}

/// The key at place `i` of `small` is a key of `big`, and, where `item` is
/// asked for, with a value that equals its value in `small`.
pub open spec fn covers_at<T: PyValue>(
    big: Seq<Item<T>>,
    small: Seq<Item<T>>,
    item: bool,
    i: int,
) -> bool {
    match items_get(big, small[i].0@.key()) {
        Some(v) => !item || small[i].1@.eq_spec(&v@),
        None => false,
    }
}

/// What a comparison of two dictionaries with the items `zelf` and `other`
/// comes to: the comparison holds of their lengths, and the one with more
/// items covers the other.
pub open spec fn compares<T: PyValue>(
    zelf: Seq<Item<T>>,
    other: Seq<Item<T>>,
    op: PyComparisonOp,
    item: bool,
) -> bool {
    op.eval_spec(zelf.len(), other.len()) && if zelf.len() < other.len() {
        covers(other, zelf, item)
    } else {
        covers(zelf, other, item)
    }
}

impl<T: PyValue> PyDict<T> {
    /// Whether `big` covers `small`. The keys of `small` are looked up in
    /// `big` one after the other, and, where `item` is asked for, the values
    /// are compared unless they are one object.
    fn covers_items(big: &mut PyDictRef<T>, small: &PyDictRef<T>, item: bool) -> (r: Result<
        bool,
        DictError<T>,
    >)
        requires
            old(big).wf(),
            small.wf(),
        ensures
            final(big).wf(),
            old(big).dict().entries().evolves_to(&final(big).dict().entries()),
            r matches Err(e) ==> e is Raised,
            all_pure(small@) && all_infallible(small@) && (!item || all_comparable(small@))
                ==> r is Ok,
            all_pure(small@) && all_infallible(small@) ==> *final(big) == *old(big) && match r {
                Ok(b) => b == covers(old(big)@, small@, item),
                Err(DictError::Raised(e)) => item && some_value_raises(small@, e),
                Err(_) => false,
            },
    {
        let ghost log = small.dict().entries().log();
        let ghost plain = all_pure(small@) && all_infallible(small@);
        let mut position: usize = 0;
        proof {
            Dict::lemma_evolves(
                &big.dict().entries(),
                &big.dict().entries(),
                &big.dict().entries(),
            );
        }
        loop
            invariant
                big.wf(),
                small.wf(),
                log == small.dict().entries().log(),
                plain == (all_pure(small@) && all_infallible(small@)),
                old(big).dict().entries().evolves_to(&big.dict().entries()),
                position <= log.len(),
                plain ==> *big == *old(big),
                plain ==> forall|i: int|
                    0 <= i < rank(log, position as int) ==> #[trigger] covers_at(
                        old(big)@,
                        small@,
                        item,
                        i,
                    ),
            decreases log.len() - position,
        {
            let ghost done = rank(log, position as int);
            let ghost before = big.dict().entries();
            match small.dict.next_live_entry(position) {
                Some((key, value, next)) => {
                    proof {
                        lemma_live_items_take(log, next as int);
                        assert(small@[done] == (key, value));
                    }
                    let found = big.get_item_option(&key);
                    proof {
                        Dict::lemma_evolves(
                            &old(big).dict().entries(),
                            &before,
                            &big.dict().entries(),
                        );
                    }
                    match found {
                        Ok(Some(other_value)) => {
                            if !value.is(&other_value) {
                                if item {
                                    match value.as_ref().value_eq(other_value.as_ref()) {
                                        Ok(true) => {},
                                        Ok(false) => {
                                            proof {
                                                assert(plain ==> !covers_at(
                                                    old(big)@,
                                                    small@,
                                                    item,
                                                    done,
                                                ));
                                            }
                                            return Ok(false);
                                        },
                                        Err(e) => {
                                            return Err(DictError::Raised(e));
                                        },
                                    }
                                }
                            } else {
                                proof {
                                    value@.lemma_eq_reflexive();
                                }
                            }
                        },
                        Ok(None) => {
                            proof {
                                assert(plain ==> !covers_at(old(big)@, small@, item, done));
                            }
                            return Ok(false);
                        },
                        Err(e) => {
                            return Err(e);
                        },
                    }
                    position = next;
                },
                None => {
                    return Ok(true);
                },
            }
        }
    }

    /// Compares the dictionaries `zelf` and `other`: whether `op` holds of
    /// their lengths and the one with more items covers the other. Fails
    /// with the exception of a comparison of values, or of a key, that
    /// fails.
    pub fn inner_cmp(
        zelf: &mut PyDictRef<T>,
        other: &mut PyDictRef<T>,
        op: PyComparisonOp,
        item: bool,
    ) -> (r: Result<bool, DictError<T>>)
        requires
            old(zelf).wf(),
            old(other).wf(),
        ensures
            final(zelf).wf(),
            final(other).wf(),
            old(zelf).dict().entries().evolves_to(&final(zelf).dict().entries()),
            old(other).dict().entries().evolves_to(&final(other).dict().entries()),
            r matches Err(e) ==> e is Raised,
            !op.eval_spec(old(zelf)@.len(), old(other)@.len()) ==> (r matches Ok(false))
                && *final(zelf) == *old(zelf) && *final(other) == *old(other),
            plain_keys(old(zelf)@, old(other)@) && (!item || all_comparable(
                smaller(old(zelf)@, old(other)@),
            )) ==> r is Ok,
            plain_keys(old(zelf)@, old(other)@) ==> *final(zelf) == *old(zelf) && *final(other)
                == *old(other) && match r {
                Ok(b) => b == compares(old(zelf)@, old(other)@, op, item),
                Err(DictError::Raised(e)) => item && some_value_raises(
                    smaller(old(zelf)@, old(other)@),
                    e,
                ),
                Err(_) => false,
            },
    {
        proof {
            Dict::lemma_evolves(
                &zelf.dict().entries(),
                &zelf.dict().entries(),
                &zelf.dict().entries(),
            );
            Dict::lemma_evolves(
                &other.dict().entries(),
                &other.dict().entries(),
                &other.dict().entries(),
            );
        }
        let zelf_len = zelf.dict.len();
        let other_len = other.dict.len();
        if !op.eval_len(zelf_len, other_len) {
            return Ok(false);
        }
        if zelf_len < other_len {
            Self::covers_items(other, zelf, item)
        } else {
            Self::covers_items(zelf, other, item)
        }
    }

    /// Compares the dictionaries `zelf` and `other` for equality. Dictionaries
    /// are equal if they have the same keys, with equal values; they have no
    /// order, so that every comparison but `Eq` and `Ne` is declined.
    pub fn cmp(zelf: &mut PyDictRef<T>, other: &mut PyDictRef<T>, op: PyComparisonOp) -> (r: Result<
        PyComparisonValue,
        DictError<T>,
    >)
        requires
            old(zelf).wf(),
            old(other).wf(),
        ensures
            final(zelf).wf(),
            final(other).wf(),
            old(zelf).dict().entries().evolves_to(&final(zelf).dict().entries()),
            old(other).dict().entries().evolves_to(&final(other).dict().entries()),
            r matches Err(e) ==> e is Raised,
            op != PyComparisonOp::Eq && op != PyComparisonOp::Ne ==> (r matches Ok(
                PyComparisonValue::NotImplemented,
            )) && *final(zelf) == *old(zelf) && *final(other) == *old(other),
            op == PyComparisonOp::Eq || op == PyComparisonOp::Ne ==> !(r matches Ok(
                PyComparisonValue::NotImplemented,
            )),
            plain_keys(old(zelf)@, old(other)@) && all_comparable(
                smaller(old(zelf)@, old(other)@),
            ) ==> r is Ok,
            plain_keys(old(zelf)@, old(other)@) ==> *final(zelf) == *old(zelf) && *final(other)
                == *old(other) && match r {
                Ok(PyComparisonValue::Implemented(b)) => b == (compares(
                    old(zelf)@,
                    old(other)@,
                    PyComparisonOp::Eq,
                    true,
                ) == (op == PyComparisonOp::Eq)),
                Ok(PyComparisonValue::NotImplemented) => true,
                Err(DictError::Raised(e)) => some_value_raises(
                    smaller(old(zelf)@, old(other)@),
                    e,
                ),
                Err(_) => false,
            },
    {
        match op {
            PyComparisonOp::Eq => {
                match Self::inner_cmp(zelf, other, PyComparisonOp::Eq, true) {
                    Ok(equal) => Ok(PyComparisonValue::Implemented(equal)),
                    Err(e) => Err(e),
                }
            },
            PyComparisonOp::Ne => {
                match Self::inner_cmp(zelf, other, PyComparisonOp::Eq, true) {
                    Ok(equal) => Ok(PyComparisonValue::Implemented(!equal)),
                    Err(e) => Err(e),
                }
            },
            _ => {
                proof {
                    Dict::lemma_evolves(
                        &zelf.dict().entries(),
                        &zelf.dict().entries(),
                        &zelf.dict().entries(),
                    );
                    Dict::lemma_evolves(
                        &other.dict().entries(),
                        &other.dict().entries(),
                        &other.dict().entries(),
                    );
                }
                Ok(PyComparisonValue::NotImplemented)
            },
        }
    }
}

impl PyDictView {
    /// Compares this view of the dictionary `dict` with the view `other` of
    /// the dictionary `other_dict`. Views of different kinds are not
    /// compared; views of one kind compare as their dictionaries do, by keys
    /// alone if they are views of the keys.
    pub fn cmp<T: PyValue>(
        &self,
        dict: &mut PyDictRef<T>,
        other: &PyDictView,
        other_dict: &mut PyDictRef<T>,
        op: PyComparisonOp,
    ) -> (r: Result<PyComparisonValue, DictError<T>>)
        requires
            old(dict).wf(),
            old(other_dict).wf(),
        ensures
            final(dict).wf(),
            final(other_dict).wf(),
            old(dict).dict().entries().evolves_to(&final(dict).dict().entries()),
            old(other_dict).dict().entries().evolves_to(&final(other_dict).dict().entries()),
            r matches Err(e) ==> e is Raised,
            self.kind != other.kind ==> (r matches Ok(PyComparisonValue::NotImplemented))
                && *final(dict) == *old(dict) && *final(other_dict) == *old(other_dict),
            self.kind == other.kind ==> !(r matches Ok(PyComparisonValue::NotImplemented)),
            plain_keys(old(dict)@, old(other_dict)@) && (self.kind == DictViewKind::Keys
                || all_comparable(smaller(old(dict)@, old(other_dict)@))) ==> r is Ok,
            plain_keys(old(dict)@, old(other_dict)@) ==> *final(dict) == *old(dict)
                && *final(other_dict) == *old(other_dict) && match r {
                Ok(PyComparisonValue::Implemented(b)) => b == compares(
                    old(dict)@,
                    old(other_dict)@,
                    op,
                    self.kind != DictViewKind::Keys,
                ),
                Ok(PyComparisonValue::NotImplemented) => true,
                Err(DictError::Raised(e)) => self.kind != DictViewKind::Keys && some_value_raises(
                    smaller(old(dict)@, old(other_dict)@),
                    e,
                ),
                Err(_) => false,
            },
    {
        if self.kind != other.kind {
            proof {
                Dict::lemma_evolves(
                    &dict.dict().entries(),
                    &dict.dict().entries(),
                    &dict.dict().entries(),
                );
                Dict::lemma_evolves(
                    &other_dict.dict().entries(),
                    &other_dict.dict().entries(),
                    &other_dict.dict().entries(),
                );
            }
            return Ok(PyComparisonValue::NotImplemented);
        }
        let item = self.kind != DictViewKind::Keys;
        match PyDict::inner_cmp(dict, other_dict, op, item) {
            Ok(holds) => Ok(PyComparisonValue::Implemented(holds)),
            Err(e) => Err(e),
        }
    }
}

} // verus!
