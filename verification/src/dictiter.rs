//! The views of a dictionary and the iterators over it.
//!
//! An iterator does not hold the dictionary: it is handed the dictionary at
//! each step. What it holds is a position and the numbers of the dictionary
//! at the time the iterator was made; a step on a dictionary whose numbers
//! are no longer those fails, wherever the iterator stands.
//!
//! A view is not an iterator. It names what is looked at (keys, values or
//! items) and makes a fresh iterator whenever one is asked for; its length
//! and its printed form are those of the dictionary at the time of asking.

use crate::dictdatatype::{DictError, DictSize};
use crate::items::{first_live_from, live_count_from, rank, Item};
use crate::objdict::PyDict;
use crate::pyobject::PyValue;
use crate::pyobjectrc::PyObjectRc;
use vstd::prelude::*;

verus! {

/// What of an item a view or an iterator hands out.
#[derive(Clone, Copy, PartialEq, Eq, Structural, Debug)]
pub enum DictViewKind {
    Keys,
    Values,
    Items,
}

/// What an iterator hands out for one item.
pub enum DictYield<T> {
    Key(PyObjectRc<T>),
    Value(PyObjectRc<T>),
    Item(PyObjectRc<T>, PyObjectRc<T>),
}

/// What is handed out for `item` when `kind` is looked at.
pub open spec fn yield_of<T>(kind: DictViewKind, item: Item<T>) -> DictYield<T> {
    match kind {
        DictViewKind::Keys => DictYield::Key(item.0),
        DictViewKind::Values => DictYield::Value(item.1),
        DictViewKind::Items => DictYield::Item(item.0, item.1),
    }
}

/// Hands out of `key` and `value` what `kind` asks for.
fn make_yield<T>(kind: DictViewKind, key: PyObjectRc<T>, value: PyObjectRc<T>) -> (r: DictYield<T>)
    ensures
        r == yield_of(kind, (key, value)),
{
    match kind {
        DictViewKind::Keys => DictYield::Key(key),
        DictViewKind::Values => DictYield::Value(value),
        DictViewKind::Items => DictYield::Item(key, value),
    }
}

/// A view of a dictionary: its keys, its values or its items.
#[derive(Clone, Copy, Debug)]
pub struct PyDictView {
    pub kind: DictViewKind,
}

/// An iterator over a dictionary in the order of insertion.
#[derive(Debug)]
pub struct PyDictIterator {
    kind: DictViewKind,
    size: DictSize,
    position: usize,
}

/// An iterator over a dictionary against the order of insertion.
#[derive(Debug)]
pub struct PyDictReverseIterator {
    kind: DictViewKind,
    size: DictSize,
    consumed: usize,
}

impl PyDictView {
    /// The view that looks at `kind`.
    pub fn new(kind: DictViewKind) -> (v: Self)
        ensures
            v.kind == kind,
    {
        PyDictView { kind }
    }

    /// A fresh iterator over `dict` as it is now.
    pub fn iter<T: PyValue>(&self, dict: &PyDict<T>) -> (it: PyDictIterator)
        requires
            dict.wf(),
        ensures
            it.kind() == self.kind,
            it.snapshot() == dict.entries().size_spec(),
            it.position() == 0,
    {
        PyDictIterator::new(dict, self.kind)
    }

    /// A fresh iterator over `dict` as it is now, against the order of
    /// insertion.
    pub fn reversed<T: PyValue>(&self, dict: &PyDict<T>) -> (it: PyDictReverseIterator)
        requires
            dict.wf(),
        ensures
            it.kind() == self.kind,
            it.snapshot() == dict.entries().size_spec(),
            it.consumed() == 0,
    {
        PyDictReverseIterator::new(dict, self.kind)
    }

    /// The number of items of `dict` as it is now.
    pub fn len<T: PyValue>(&self, dict: &PyDict<T>) -> (n: usize)
        requires
            dict.wf(),
        ensures
            n == dict@.len(),
    {
        dict.len()
    }
}

impl PyDictIterator {
    /// What the iterator hands out of each item.
    pub closed spec fn kind(&self) -> DictViewKind {
        self.kind
    }

    /// The numbers of the dictionary when the iterator was made.
    pub closed spec fn snapshot(&self) -> DictSize {
        self.size
    }

    /// The log position from which the iterator goes on.
    pub closed spec fn position(&self) -> int {
        self.position as int
    }

    /// An iterator over `dict` as it is now, from its first item.
    pub fn new<T: PyValue>(dict: &PyDict<T>, kind: DictViewKind) -> (it: Self)
        requires
            dict.wf(),
        ensures
            it.kind() == kind,
            it.snapshot() == dict.entries().size_spec(),
            it.position() == 0,
    {
        PyDictIterator { kind, size: dict.size(), position: 0 }
    }

    /// The next item. Fails with `StructuralChangeDuringIteration`, and
    /// stays where it is, if the dictionary is not as it was when the
    /// iterator was made. Hands out `None`, and stays where it is, when no
    /// item is left.
    pub fn next<T: PyValue>(&mut self, dict: &PyDict<T>) -> (r: Result<
        Option<DictYield<T>>,
        DictError<T>,
    >)
        requires
            dict.wf(),
        ensures
            final(self).kind() == old(self).kind(),
            final(self).snapshot() == old(self).snapshot(),
            if dict.entries().size_spec() != old(self).snapshot() {
                r matches Err(DictError::StructuralChangeDuringIteration) && final(self).position()
                    == old(self).position()
            } else {
                match first_live_from(dict.entries().log(), old(self).position()) {
                    Some(i) => r matches Ok(Some(y)) && dict.entries().log()[i] matches Some(item)
                        && y == yield_of(old(self).kind(), item) && final(self).position() == i + 1
                        && item == dict@[rank(dict.entries().log(), old(self).position())],
                    None => r matches Ok(None) && final(self).position() == old(self).position(),
                }
            },
    {
        if dict.has_structurally_changed(&self.size) {
            return Err(DictError::StructuralChangeDuringIteration);
        }
        match dict.next_live_entry(self.position) {
            Some((key, value, next)) => {
                self.position = next;
                Ok(Some(make_yield(self.kind, key, value)))
            },
            None => Ok(None),
        }
    }

    /// The number of items that are left.
    pub fn length_hint<T: PyValue>(&self, dict: &PyDict<T>) -> (n: usize)
        requires
            dict.wf(),
        ensures
            n == live_count_from(dict.entries().log(), self.position()),
    {
        dict.length_from(self.position)
    }
}

impl PyDictReverseIterator {
    /// What the iterator hands out of each item.
    pub closed spec fn kind(&self) -> DictViewKind {
        self.kind
    }

    /// The numbers of the dictionary when the iterator was made.
    pub closed spec fn snapshot(&self) -> DictSize {
        self.size
    }

    /// The number of items that the iterator has handed out, or
    /// `usize::MAX` once it has come to the end.
    pub closed spec fn consumed(&self) -> int {
        self.consumed as int
    }

    /// An iterator over `dict` as it is now, from its last item.
    pub fn new<T: PyValue>(dict: &PyDict<T>, kind: DictViewKind) -> (it: Self)
        requires
            dict.wf(),
        ensures
            it.kind() == kind,
            it.snapshot() == dict.entries().size_spec(),
            it.consumed() == 0,
    {
        PyDictReverseIterator { kind, size: dict.size(), consumed: 0 }
    }

    /// The next item, counted from the last: after `c` items have been
    /// handed out, the item at place `len - 1 - c`. Fails with
    /// `StructuralChangeDuringIteration`, and stays where it is, if the
    /// dictionary is not as it was when the iterator was made. Hands out
    /// `None` once as many items as the dictionary has have been handed out,
    /// and from then on.
    pub fn next<T: PyValue>(&mut self, dict: &PyDict<T>) -> (r: Result<
        Option<DictYield<T>>,
        DictError<T>,
    >)
        requires
            dict.wf(),
        ensures
            final(self).kind() == old(self).kind(),
            final(self).snapshot() == old(self).snapshot(),
            if dict.entries().size_spec() != old(self).snapshot() {
                r matches Err(DictError::StructuralChangeDuringIteration) && final(self).consumed()
                    == old(self).consumed()
            } else if old(self).consumed() >= dict@.len() {
                r matches Ok(None) && final(self).consumed() == usize::MAX
            } else {
                r matches Ok(Some(y)) && y == yield_of(
                    old(self).kind(),
                    dict@[dict@.len() - 1 - old(self).consumed()],
                ) && final(self).consumed() == old(self).consumed() + 1
            },
    {
        if dict.has_structurally_changed(&self.size) {
            return Err(DictError::StructuralChangeDuringIteration);
        }
        let len = dict.len();
        if self.consumed >= len {
            self.consumed = usize::MAX;
            return Ok(None);
        }
        let place = len - 1 - self.consumed;
        match dict.nth_live(place) {
            Some((key, value)) => {
                self.consumed = self.consumed + 1;
                Ok(Some(make_yield(self.kind, key, value)))
            },
            None => vstd::pervasive::unreached(),
        }
    }

    /// The number of items that are left.
    pub fn length_hint<T: PyValue>(&self, dict: &PyDict<T>) -> (n: usize)
        requires
            dict.wf(),
        ensures
            n == if self.consumed() >= dict@.len() {
                0
            } else {
                dict@.len() - self.consumed()
            },
    {
        let len = dict.len();
        if self.consumed >= len {
            0
        } else {
            len - self.consumed
        }
    }
}

} // verus!
