//! The none object.

use crate::pyobject::{PyComparisonOp, PyComparisonValue, PyValue};
use crate::pyobjectrc::PyObjectRc;
use vstd::prelude::*;

verus! {

/// What the none object holds: nothing.
#[derive(Clone, Copy, PartialEq, Eq, Structural, Debug)]
pub struct PyNone;

impl PyNone {
    /// The none value.
    pub fn tp_new() -> PyNone {
        PyNone
    }

    /// The printed form of none.
    pub fn repr(&self) -> (r: String)
        ensures
            r@ == "None"@,
    {
        "None".to_owned()
    }

    /// Compares the none object `zelf` with `other`. It equals the object
    /// that it is, and nothing else; it has no order.
    pub fn cmp<T>(zelf: &PyObjectRc<T>, other: &PyObjectRc<T>, op: PyComparisonOp) -> (r:
        PyComparisonValue)
        ensures
            match op {
                PyComparisonOp::Eq => r matches PyComparisonValue::Implemented(b) && (b ==> *zelf
                    == *other),
                PyComparisonOp::Ne => r matches PyComparisonValue::Implemented(b) && (!b
                    ==> *zelf == *other),
                _ => r == PyComparisonValue::NotImplemented,
            },
    {
        match op {
            PyComparisonOp::Eq => PyComparisonValue::Implemented(zelf.is(other)),
            PyComparisonOp::Ne => PyComparisonValue::Implemented(!zelf.is(other)),
            _ => PyComparisonValue::NotImplemented,
        }
    }

    /// None counts as false.
    pub fn bool(&self) -> (r: bool)
        ensures
            !r,
    {
        false
    }
}

/// The object for a value that may be missing: the value, or a none object.
pub fn into_pyobject<T: PyValue>(value: Option<PyObjectRc<T>>) -> (r: PyObjectRc<T>)
    ensures
        match value {
            Some(v) => r == v,
            None => r@.is_none(),
        },
{
    match value {
        Some(v) => v,
        None => PyObjectRc::new(T::none()),
    }
}

} // verus!
