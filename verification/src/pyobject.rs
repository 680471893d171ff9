//! The behaviour of the objects of the hosted language.
//!
//! Hashing, comparing and printing an object may run code of the hosted
//! language. Such code may fail, in which case the failure is handed back as
//! the exception object; and while two keys are compared it may change the
//! very dictionary that is being searched, which is why `equals` is given the
//! dictionary.

use crate::dictdatatype::{Dict, DictKey, VERSION_LIMIT};
use crate::payload::{HashValue, PyObjectPayload};
use crate::pyobjectrc::PyObjectRc;
use vstd::prelude::*;

verus! {

/// A handle to any object of the hosted language.
pub type PyObjectRef<T> = PyObjectRc<T>;

/// What an operation of the hosted language gives: a result, or the
/// exception object that it raised.
pub type PyResult<T, R> = Result<R, PyObjectRc<T>>;

/// What the dictionary type asks of the objects of the hosted language.
pub trait PyValue: PyObjectPayload {
    /// Comparing this object as a key never changes a dictionary.
    spec fn is_pure(&self) -> bool;

    /// Hashing this object and comparing it as a key never fail.
    spec fn is_infallible(&self) -> bool;

    /// Comparing this object with another as values never fails.
    spec fn is_comparable(&self) -> bool;

    /// Printing this object never fails.
    spec fn is_printable(&self) -> bool;

    /// `exception` is what hashing, comparing or printing this object may
    /// fail with.
    spec fn raises(&self, exception: PyObjectRc<Self>) -> bool;

    /// Whether this object is the none object.
    spec fn is_none(&self) -> bool;

    /// Whether this object, as an exception, says that a key is missing.
    spec fn is_key_error(&self) -> bool;

    /// Whether this object equals `other` as a value.
    spec fn eq_spec(&self, other: &Self) -> bool;

    /// The printed form of this object.
    spec fn repr_spec(&self) -> Seq<char>;

    /// An object equals itself.
    proof fn lemma_eq_reflexive(&self)
        ensures
            self.eq_spec(self),
    ;

    /// The hash of this object. A hash that is returned is the one that the
    /// object's key has: an object reports the same hash for as long as it is
    /// a key of a dictionary.
    fn hash(&self) -> (r: PyResult<Self, HashValue>)
        ensures
            self.is_infallible() ==> r is Ok,
            r matches Ok(h) ==> h == Self::hash_of(self.key()),
            r matches Err(e) ==> self.raises(e),
    ;

    /// Whether this object is the same key as the stored key `other`. The
    /// dictionary that is being searched is `dict`; whatever is done to it,
    /// it stays well formed, its version does not go back, and if it could
    /// take another change to its keys before the call it can after it.
    fn equals(&self, other: &PyObjectRc<Self>, dict: &mut Dict<Self>) -> (r: PyResult<Self, bool>)
        requires
            old(dict).wf(),
        ensures
            final(dict).wf(),
            old(dict).evolves_to(final(dict)),
            old(dict).version() < VERSION_LIMIT ==> final(dict).version() < VERSION_LIMIT,
            self.is_pure() ==> *final(dict) == *old(dict),
            self.is_infallible() ==> r is Ok,
            r matches Ok(b) ==> b == (other@.key() == self.key()),
            r matches Err(e) ==> self.raises(e),
    ;

    /// The none object.
    fn none() -> (r: Self)
        ensures
            r.is_none(),
    ;

    /// Whether this object, as an exception, says that a key is missing.
    fn key_error(&self) -> (r: bool)
        ensures
            r == self.is_key_error(),
    ;

    /// Compares this object with `other` as values.
    fn value_eq(&self, other: &Self) -> (r: PyResult<Self, bool>)
        ensures
            self.is_comparable() ==> r is Ok,
            r matches Ok(b) ==> b == self.eq_spec(other),
            r matches Err(e) ==> self.raises(e),
    ;

    /// The printed form of this object.
    fn repr(&self) -> (r: PyResult<Self, String>)
        ensures
            self.is_printable() ==> r is Ok,
            r matches Ok(s) ==> s@ == self.repr_spec(),
            r matches Err(e) ==> self.raises(e),
    ;
}

/// An object as a key: hashing and comparing are the object's own, and an
/// object is known to be a stored key without comparing if both are one
/// object.
impl<T: PyValue> DictKey<T> for PyObjectRc<T> {
    open spec fn key(&self) -> T::Key {
        self@.key()
    }

    open spec fn is_pure(&self) -> bool {
        self@.is_pure()
    }

    open spec fn is_infallible(&self) -> bool {
        self@.is_infallible()
    }

    open spec fn raises(&self, exception: PyObjectRc<T>) -> bool {
        self@.raises(exception)
    }

    fn key_hash(&self) -> (r: Result<HashValue, PyObjectRc<T>>) {
        self.as_ref().hash()
    }

    fn key_is(&self, other: &PyObjectRc<T>) -> (r: bool) {
        self.is(other)
    }

    fn key_eq(&self, other: &PyObjectRc<T>, dict: &mut Dict<T>) -> (r: Result<bool, PyObjectRc<T>>) {
        self.as_ref().equals(other, dict)
    }

    fn into_pyobject(self) -> (r: PyObjectRc<T>) {
        self
    }
}

/// A comparison of the hosted language.
#[derive(Clone, Copy, PartialEq, Eq, Structural, Debug)]
pub enum PyComparisonOp {
    Lt,
    Gt,
    Ne,
    Eq,
    Le,
    Ge,
}

impl PyComparisonOp {
    /// Whether the comparison holds of the numbers `a` and `b`.
    pub open spec fn eval_spec(self, a: nat, b: nat) -> bool {
        match self {
            PyComparisonOp::Lt => a < b,
            PyComparisonOp::Gt => a > b,
            PyComparisonOp::Ne => a != b,
            PyComparisonOp::Eq => a == b,
            PyComparisonOp::Le => a <= b,
            PyComparisonOp::Ge => a >= b,
        }
    }

    /// Whether the comparison holds of the lengths `a` and `b`.
    pub fn eval_len(self, a: usize, b: usize) -> (r: bool)
        ensures
            r == self.eval_spec(a as nat, b as nat),
    {
        match self {
            PyComparisonOp::Lt => a < b,
            PyComparisonOp::Gt => a > b,
            PyComparisonOp::Ne => a != b,
            PyComparisonOp::Eq => a == b,
            PyComparisonOp::Le => a <= b,
            PyComparisonOp::Ge => a >= b,
        }
    }
}

/// What a comparison gives: whether it holds, or that the operands do not
/// take part in it.
#[derive(Clone, Copy, PartialEq, Eq, Structural, Debug)]
pub enum PyComparisonValue {
    Implemented(bool),
    NotImplemented,
}

} // verus!
