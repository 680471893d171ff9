//! The shared-ownership handle through which every object is held.
//!
//! A `PyObjectRc<T>` is one of possibly many strong owners of an object; the
//! object lives until the last of them is dropped. A `PyObjectWeak<T>`
//! observes an object without keeping it alive.
//!
//! In specifications a handle stands for the object behind it (`handle@`):
//! two handles to the same object are equal, and so are two handles to equal
//! objects. Whether two handles share one allocation can only be asked at run
//! time, with [`PyObjectRc::is`].

use std::rc::Rc;
use std::rc::Weak;
use vstd::prelude::*;

verus! {

/// `std::rc::Weak<T>`, kept behind a field that the verifier does not look
/// into.
#[verifier::external_body]
#[verifier::reject_recursive_types(T)]
struct WeakPtr<T> {
    ptr: Weak<T>,
}

/// `Rc::clone`: a second pointer to the same allocation, so the value behind
/// the result is the value behind `rc`.
#[verifier::external_body]
fn rc_clone<T>(rc: &Rc<T>) -> (r: Rc<T>)
    ensures
        r == *rc,
{
    Rc::clone(rc)
}

/// `Rc::strong_count`: the number of strong pointers to the allocation, which
/// counts `rc` itself.
#[verifier::external_body]
fn rc_strong_count<T>(rc: &Rc<T>) -> (n: usize)
    ensures
        n >= 1,
{
    Rc::strong_count(rc)
}

/// `Rc::weak_count`: the number of weak pointers to the allocation. Nothing
/// is claimed of it.
#[verifier::external_body]
fn rc_weak_count<T>(rc: &Rc<T>) -> usize {
    Rc::weak_count(rc)
}

/// `Rc::ptr_eq`: whether both point to the same allocation. If they do, the
/// values behind them are one value.
#[verifier::external_body]
fn rc_ptr_eq<T>(a: &Rc<T>, b: &Rc<T>) -> (r: bool)
    ensures
        r ==> *a == *b,
{
    Rc::ptr_eq(a, b)
}

/// `Rc::downgrade`: a weak pointer to the allocation of `rc`. The reference
/// that comes back records the value behind `rc` as what it was made from.
#[verifier::external_body]
fn rc_downgrade<T>(rc: &Rc<T>) -> (w: PyObjectWeak<T>)
    ensures
        w.target() == **rc,
{
    PyObjectWeak { ptr: WeakPtr { ptr: Rc::downgrade(rc) }, target: Ghost(**rc) }
}

/// `Weak::upgrade`: a strong pointer to the allocation that the weak pointer
/// was made from, or `None` once its value has been dropped. A strong pointer
/// that comes back holds the value that `Rc::downgrade` recorded when the
/// weak one was made.
#[verifier::external_body]
fn weak_upgrade<T>(weak: &PyObjectWeak<T>) -> (r: Option<Rc<T>>)
    ensures
        r matches Some(rc) ==> *rc == weak.target(),
{
    weak.ptr.ptr.upgrade()
}

/// `Weak::clone`: another weak pointer to the same allocation, which
/// therefore was made from the same value.
#[verifier::external_body]
fn weak_clone<T>(weak: &PyObjectWeak<T>) -> (r: PyObjectWeak<T>)
    ensures
        r.target() == weak.target(),
{
    PyObjectWeak { ptr: WeakPtr { ptr: Weak::clone(&weak.ptr.ptr) }, target: Ghost(weak.target@) }
}

/// A strong, reference-counted owner of an object of type `T`.
pub struct PyObjectRc<T> {
    inner: Rc<T>,
}

/// A non-owning reference to an object of type `T`, with a record of the
/// value it was made from. Only `Rc::downgrade` and `Weak::clone` make one.
#[verifier::reject_recursive_types(T)]
pub struct PyObjectWeak<T> {
    ptr: WeakPtr<T>,
    target: Ghost<T>,
}

impl<T> View for PyObjectRc<T> {
    type V = T;

    /// The object behind the handle.
    closed spec fn view(&self) -> T {
        *self.inner
    }
}

impl<T> PyObjectRc<T> {
    /// Moves `value` into a fresh allocation and returns its first owner.
    pub fn new(value: T) -> (r: Self)
        ensures
            r@ == value,
    {
        PyObjectRc { inner: Rc::new(value) }
    }

    /// Takes hold of the object that `inner` owns.
    pub fn from_rc(inner: Rc<T>) -> (r: Self)
        ensures
            r@ == *inner,
    {
        PyObjectRc { inner }
    }

    /// Hands the ownership over as a plain `Rc`.
    pub fn into_rc(self) -> (inner: Rc<T>)
        ensures
            *inner == self@,
    {
        self.inner
    }

    /// Borrows the object behind the handle.
    pub fn as_ref(&self) -> (r: &T)
        ensures
            *r == self@,
    {
        &*self.inner
    }

    /// Whether `self` and `other` are owners of one and the same object. Two
    /// handles for which this holds are equal; two equal handles may still
    /// own distinct allocations.
    pub fn is(&self, other: &Self) -> (r: bool)
        ensures
            r ==> *self == *other,
    {
        rc_ptr_eq(&self.inner, &other.inner)
    }

    /// The number of strong owners of the object, `this` included.
    pub fn strong_count(this: &Self) -> (n: usize)
        ensures
            n >= 1,
    {
        rc_strong_count(&this.inner)
    }

    /// The number of weak references to the object.
    pub fn weak_count(this: &Self) -> usize {
        rc_weak_count(&this.inner)
    }

    /// A weak reference to the object behind `this`.
    pub fn downgrade(this: &Self) -> (w: PyObjectWeak<T>)
        ensures
            w.target() == this@,
    {
        rc_downgrade(&this.inner)
    }

    /// A new strong owner of the object that `weak` refers to, or `None` if
    /// the object is gone. Which of the two comes back depends on the other
    /// owners; an owner that does come back owns the object `weak` was made
    /// from.
    pub fn upgrade_weak(weak: &PyObjectWeak<T>) -> (r: Option<Self>)
        ensures
            r matches Some(rc) ==> rc@ == weak.target(),
    {
        match weak_upgrade(weak) {
            Some(inner) => Some(PyObjectRc { inner }),
            None => None,
        }
    }
}

impl<T> Clone for PyObjectRc<T> {
    /// A second owner of the same object.
    fn clone(&self) -> (r: Self)
        ensures
            r == *self,
    {
        PyObjectRc { inner: rc_clone(&self.inner) }
    }
}

impl<T> PyObjectWeak<T> {
    /// The object this reference was made from.
    pub closed spec fn target(&self) -> T {
        self.target@
    }
}

impl<T> Clone for PyObjectWeak<T> {
    /// Another weak reference to the same object.
    fn clone(&self) -> (r: Self)
        ensures
            r.target() == self.target(),
    {
        weak_clone(self)
    }
}

} // verus!
