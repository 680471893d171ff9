//! The printed forms of a dictionary and of its views.
//!
//! A dictionary prints as `{k1: v1, k2: v2}`, a view as `dict_keys([k1, k2])`,
//! `dict_values([v1, v2])` or `dict_items([(k1, v1), (k2, v2)])`, each key and
//! value in its own printed form. A dictionary or a view that is met again
//! while it is being printed, because it holds itself, prints as `{...}`.

use crate::dictdatatype::DictError;
use crate::dictiter::{DictViewKind, PyDictView};
use crate::items::{lemma_live_items_take, rank, Item};
use crate::objdict::PyDict;
use crate::pyobject::PyValue;
use crate::pyobjectrc::PyObjectRc;
use vstd::prelude::*;
use vstd::string::StringExecFns;

verus! {

/// The printed form of one item of a dictionary: `k: v`.
pub open spec fn item_repr<T: PyValue>(item: Item<T>) -> Seq<char> {
    item.0@.repr_spec() + ": "@ + item.1@.repr_spec()
}

/// The printed form of what a view hands out for one item.
pub open spec fn yield_repr<T: PyValue>(kind: DictViewKind, item: Item<T>) -> Seq<char> {
    match kind {
        DictViewKind::Keys => item.0@.repr_spec(),
        DictViewKind::Values => item.1@.repr_spec(),
        DictViewKind::Items => "("@ + item.0@.repr_spec() + ", "@ + item.1@.repr_spec() + ")"@,
    }
}

/// The printed form of one item as a dictionary prints it (`kind` is `None`)
/// or as the view of `kind` prints it.
pub open spec fn part_repr<T: PyValue>(kind: Option<DictViewKind>, item: Item<T>) -> Seq<char> {
    match kind {
        Some(k) => yield_repr(k, item),
        None => item_repr(item),
    }
}

/// The printed forms of the items, one by one.
pub open spec fn parts_of<T: PyValue>(kind: Option<DictViewKind>, items: Seq<Item<T>>) -> Seq<
    Seq<char>,
> {
    items.map_values(|item: Item<T>| part_repr(kind, item))
}

/// The printed forms of the parts, with `, ` between them.
pub open spec fn joined(parts: Seq<Seq<char>>) -> Seq<char>
    decreases parts.len(),
{
    if parts.len() == 0 {
        Seq::empty()
    } else if parts.len() == 1 {
        parts[0]
    } else {
        joined(parts.drop_last()) + ", "@ + parts.last()
    }
}

/// The printed form of a dictionary with the items `items`.
pub open spec fn dict_repr<T: PyValue>(items: Seq<Item<T>>) -> Seq<char> {
    "{"@ + joined(parts_of(None, items)) + "}"@
}

/// The name under which a view prints.
pub open spec fn view_name(kind: DictViewKind) -> Seq<char> {
    match kind {
        DictViewKind::Keys => "dict_keys"@,
        DictViewKind::Values => "dict_values"@,
        DictViewKind::Items => "dict_items"@,
    }
}

/// The printed form of the view of `kind` of a dictionary with the items
/// `items`.
pub open spec fn view_repr<T: PyValue>(kind: DictViewKind, items: Seq<Item<T>>) -> Seq<char> {
    view_name(kind) + "(["@ + joined(parts_of(Some(kind), items)) + "])"@
}

/// Adding a part to parts that are joined.
proof fn lemma_joined_push(parts: Seq<Seq<char>>, part: Seq<char>)
    ensures
        joined(parts.push(part)) == if parts.len() == 0 {
            part
        } else {
            joined(parts) + ", "@ + part
        },
{
    assert(parts.push(part).drop_last() == parts);
}

/// What is printed in place of something that holds itself.
fn recursion_mark() -> (s: String)
    ensures
        s@ == "{...}"@,
{
    String::from_str("{...}")
}

/// Whether the key of an item goes into what is printed for it: it does but
/// for a view of the values.
pub open spec fn shows_key(kind: Option<DictViewKind>) -> bool {
    kind != Some(DictViewKind::Values)
}

/// Whether the value of an item goes into what is printed for it: it does but
/// for a view of the keys.
pub open spec fn shows_value(kind: Option<DictViewKind>) -> bool {
    kind != Some(DictViewKind::Keys)
}

/// Printing what is shown of `item` never fails.
pub open spec fn part_printable<T: PyValue>(kind: Option<DictViewKind>, item: Item<T>) -> bool {
    &&& shows_key(kind) ==> item.0@.is_printable()
    &&& shows_value(kind) ==> item.1@.is_printable()
}

/// `exception` is what printing what is shown of `item` may fail with.
pub open spec fn part_raises<T: PyValue>(
    kind: Option<DictViewKind>,
    item: Item<T>,
    exception: PyObjectRc<T>,
) -> bool {
    ||| shows_key(kind) && item.0@.raises(exception)
    ||| shows_value(kind) && item.1@.raises(exception)
}

/// Printing what is shown of any of the items never fails.
pub open spec fn all_printable<T: PyValue>(
    kind: Option<DictViewKind>,
    items: Seq<Item<T>>,
) -> bool {
    forall|i: int| 0 <= i < items.len() ==> part_printable(kind, #[trigger] items[i])
}

/// `exception` is what printing what is shown of one of the items may fail
/// with.
pub open spec fn some_part_raises<T: PyValue>(
    kind: Option<DictViewKind>,
    items: Seq<Item<T>>,
    exception: PyObjectRc<T>,
) -> bool {
    exists|i: int| 0 <= i < items.len() && part_raises(kind, #[trigger] items[i], exception)
}

/// The printed form of what is shown of the item of `key` and `value`. Only
/// what is shown is printed; the failure of a key or a value to print is
/// handed on.
fn part_to_string<T: PyValue>(
    kind: Option<DictViewKind>,
    key: &PyObjectRc<T>,
    value: &PyObjectRc<T>,
) -> (r: Result<String, PyObjectRc<T>>)
    ensures
        part_printable(kind, (*key, *value)) ==> r is Ok,
        match r {
            Ok(s) => s@ == part_repr(kind, (*key, *value)),
            Err(e) => part_raises(kind, (*key, *value), e),
        },
{
    match kind {
        Some(DictViewKind::Keys) => key.as_ref().repr(),
        Some(DictViewKind::Values) => value.as_ref().repr(),
        Some(DictViewKind::Items) => {
            let key_repr = match key.as_ref().repr() {
                Ok(text) => text,
                Err(e) => {
                    return Err(e);
                },
            };
            let value_repr = match value.as_ref().repr() {
                Ok(text) => text,
                Err(e) => {
                    return Err(e);
                },
            };
            let mut s = String::from_str("(");
            s.append(key_repr.as_str());
            s.append(", ");
            s.append(value_repr.as_str());
            s.append(")");
            Ok(s)
        },
        None => {
            let key_repr = match key.as_ref().repr() {
                Ok(text) => text,
                Err(e) => {
                    return Err(e);
                },
            };
            let value_repr = match value.as_ref().repr() {
                Ok(text) => text,
                Err(e) => {
                    return Err(e);
                },
            };
            let mut s = key_repr;
            s.append(": ");
            s.append(value_repr.as_str());
            Ok(s)
        },
    }
}

impl<T: PyValue> PyDict<T> {
    /// The printed forms of what is shown of the items, with `, ` between
    /// them, after `head` and before `tail`.
    fn repr_with(&self, kind: Option<DictViewKind>, head: &str, tail: &str) -> (r: Result<
        String,
        DictError<T>,
    >)
        requires
            self.wf(),
        ensures
            all_printable(kind, self@) ==> r is Ok,
            match r {
                Ok(s) => s@ == head@ + joined(parts_of(kind, self@)) + tail@,
                Err(DictError::Raised(e)) => some_part_raises(kind, self@, e),
                Err(_) => false,
            },
    {
        let ghost log = self.entries().log();
        let ghost parts = parts_of(kind, self@);
        let mut s = String::from_str(head);
        let mut position: usize = 0;
        let mut first = true;
        loop
            invariant
                self.wf(),
                log == self.entries().log(),
                parts == parts_of(kind, self@),
                position <= log.len(),
                first == (rank(log, position as int) == 0),
                rank(log, position as int) <= self@.len(),
                s@ == head@ + joined(parts.take(rank(log, position as int))),
            decreases log.len() - position,
        {
            let ghost done = rank(log, position as int);
            match self.next_live_entry(position) {
                Some((key, value, next)) => {
                    proof {
                        lemma_live_items_take(log, next as int);
                        assert(self@[done] == (key, value));
                        assert(parts.take(done + 1) == parts.take(done).push(parts[done]));
                        lemma_joined_push(parts.take(done), parts[done]);
                    }
                    let part = match part_to_string(kind, &key, &value) {
                        Ok(text) => text,
                        Err(e) => {
                            return Err(DictError::Raised(e));
                        },
                    };
                    if !first {
                        s.append(", ");
                    }
                    s.append(part.as_str());
                    first = false;
                    position = next;
                },
                None => {
                    proof {
                        assert(parts.take(done) == parts);
                    }
                    s.append(tail);
                    return Ok(s);
                },
            }
        }
    }

    /// The printed form of the dictionary: `{k1: v1, k2: v2}`, or `{...}` if
    /// the dictionary is `recursive`, that is, met again while it is being
    /// printed. Succeeds if the dictionary is recursive or every key and
    /// value prints; otherwise it may fail with what a key or a value raises.
    pub fn repr(&self, recursive: bool) -> (r: Result<String, DictError<T>>)
        requires
            self.wf(),
        ensures
            recursive || all_printable(None, self@) ==> r is Ok,
            match r {
                Ok(s) => s@ == if recursive {
                    "{...}"@
                } else {
                    dict_repr(self@)
                },
                Err(DictError::Raised(e)) => !recursive && some_part_raises(None, self@, e),
                Err(_) => false,
            },
    {
        if recursive {
            Ok(recursion_mark())
        } else {
            self.repr_with(None, "{", "}")
        }
    }
}

impl PyDictView {
    /// The name under which the view prints, with the bracket that opens its
    /// list.
    fn head(&self) -> (s: String)
        ensures
            s@ == view_name(self.kind) + "(["@,
    {
        let mut s = match self.kind {
            DictViewKind::Keys => String::from_str("dict_keys"),
            DictViewKind::Values => String::from_str("dict_values"),
            DictViewKind::Items => String::from_str("dict_items"),
        };
        s.append("([");
        s
    }

    /// The printed form of the view of `dict` as it is now:
    /// `dict_keys([k1, k2])` and the like, or `{...}` if the view is
    /// `recursive`, that is, met again while it is being printed. Only what
    /// the view shows is printed. Succeeds if the view is recursive or all
    /// that it shows prints; otherwise it may fail with what a key or a value
    /// that it shows raises.
    pub fn repr<T: PyValue>(&self, dict: &PyDict<T>, recursive: bool) -> (r: Result<
        String,
        DictError<T>,
    >)
        requires
            dict.wf(),
        ensures
            recursive || all_printable(Some(self.kind), dict@) ==> r is Ok,
            match r {
                Ok(s) => s@ == if recursive {
                    "{...}"@
                } else {
                    view_repr(self.kind, dict@)
                },
                Err(DictError::Raised(e)) => !recursive && some_part_raises(
                    Some(self.kind),
                    dict@,
                    e,
                ),
                Err(_) => false,
            },
    {
        if recursive {
            Ok(recursion_mark())
        } else {
            let head = self.head();
            dict.repr_with(Some(self.kind), head.as_str(), "])")
        }
    }
}

} // verus!
