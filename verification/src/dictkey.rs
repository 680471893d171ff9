//! Native text as dictionary keys.
//!
//! A `&str` or a `String` is a key whose hash is computed from its bytes and
//! which is compared with a stored key by looking whether that key is a
//! native text with the same characters. Nothing of this runs code of the
//! hosted language: such keys never fail and never touch the dictionary.
//!
//! A `HashedStr` is a text with its hash, computed once when it is made: the
//! key to use where the same text is looked up again and again.

use crate::dictdatatype::{Dict, DictKey};
use crate::payload::{hash_str, str_eq, str_hash, HashValue, PyObjectPayload};
use crate::pyobjectrc::PyObjectRc;
use vstd::prelude::*;

verus! {

/// Whether the stored key `other` is the native text `text`.
fn text_eq<T: PyObjectPayload>(text: &str, other: &PyObjectRc<T>) -> (r: bool)
    ensures
        r == (other@.key() == T::text_key(text@)),
{
    proof {
        other@.lemma_text_key(text@);
    }
    match other.as_ref().as_text() {
        Some(stored) => str_eq(stored, text),
        None => false,
    }
}

/// The object that is the native text `text`.
fn text_object<T: PyObjectPayload>(text: &str) -> (r: PyObjectRc<T>)
    ensures
        r@.key() == T::text_key(text@),
        r@.text() == Some(text@),
{
    let object = T::new_str(text);
    proof {
        object.lemma_text_key(text@);
    }
    PyObjectRc::new(object)
}

/// The hash of the native text `text`, which is that of its key.
fn text_hash<T: PyObjectPayload>(text: &str) -> (h: HashValue)
    ensures
        h == T::hash_of(T::text_key(text@)),
{
    proof {
        T::lemma_text_hash(text@);
    }
    hash_str(text)
}

impl<'a, T: PyObjectPayload> DictKey<T> for &'a str {
    open spec fn key(&self) -> T::Key {
        T::text_key(self@)
    }

    open spec fn is_pure(&self) -> bool {
        true
    }

    open spec fn is_infallible(&self) -> bool {
        true
    }

    open spec fn raises(&self, exception: PyObjectRc<T>) -> bool {
        false
    }

    fn key_hash(&self) -> (r: Result<HashValue, PyObjectRc<T>>) {
        Ok(text_hash::<T>(self))
    }

    fn key_is(&self, other: &PyObjectRc<T>) -> (r: bool) {
        false
    }

    fn key_eq(&self, other: &PyObjectRc<T>, dict: &mut Dict<T>) -> (r: Result<bool, PyObjectRc<T>>) {
        proof {
            Dict::lemma_evolves(dict, dict, dict);
        }
        Ok(text_eq(self, other))
    }

    fn into_pyobject(self) -> (r: PyObjectRc<T>) {
        text_object(self)
    }
}

impl<T: PyObjectPayload> DictKey<T> for String {
    open spec fn key(&self) -> T::Key {
        T::text_key(self@)
    }

    open spec fn is_pure(&self) -> bool {
        true
    }

    open spec fn is_infallible(&self) -> bool {
        true
    }

    open spec fn raises(&self, exception: PyObjectRc<T>) -> bool {
        false
    }

    fn key_hash(&self) -> (r: Result<HashValue, PyObjectRc<T>>) {
        Ok(text_hash::<T>(self.as_str()))
    }

    fn key_is(&self, other: &PyObjectRc<T>) -> (r: bool) {
        false
    }

    fn key_eq(&self, other: &PyObjectRc<T>, dict: &mut Dict<T>) -> (r: Result<bool, PyObjectRc<T>>) {
        proof {
            Dict::lemma_evolves(dict, dict, dict);
        }
        Ok(text_eq(self.as_str(), other))
    }

    fn into_pyobject(self) -> (r: PyObjectRc<T>) {
        text_object(self.as_str())
    }
}

/// A native text together with its hash.
pub struct HashedStr {
    text: String,
    hash: HashValue,
}

impl HashedStr {
    #[verifier::type_invariant]
    spec fn hash_is_of_text(self) -> bool {
        self.hash == str_hash(self.text@)
    }

    /// The characters of the text.
    pub closed spec fn view(&self) -> Seq<char> {
        self.text@
    }

    /// Takes `text` and computes its hash.
    pub fn new(text: String) -> (r: Self)
        ensures
            r@ == text@,
    {
        let hash = hash_str(text.as_str());
        HashedStr { text, hash }
    }

    /// The text.
    pub fn as_str(&self) -> (s: &str)
        ensures
            s@ == self@,
    {
        self.text.as_str()
    }

    /// The hash of the text.
    pub fn hash(&self) -> (h: HashValue)
        ensures
            h == str_hash(self@),
    {
        proof {
            use_type_invariant(self);
        }
        self.hash
    }
}

impl<T: PyObjectPayload> DictKey<T> for HashedStr {
    open spec fn key(&self) -> T::Key {
        T::text_key(self@)
    }

    open spec fn is_pure(&self) -> bool {
        true
    }

    open spec fn is_infallible(&self) -> bool {
        true
    }

    open spec fn raises(&self, exception: PyObjectRc<T>) -> bool {
        false
    }

    fn key_hash(&self) -> (r: Result<HashValue, PyObjectRc<T>>) {
        proof {
            T::lemma_text_hash(self@);
        }
        Ok(self.hash())
    }

    fn key_is(&self, other: &PyObjectRc<T>) -> (r: bool) {
        false
    }

    fn key_eq(&self, other: &PyObjectRc<T>, dict: &mut Dict<T>) -> (r: Result<bool, PyObjectRc<T>>) {
        proof {
            Dict::lemma_evolves(dict, dict, dict);
        }
        Ok(text_eq(self.as_str(), other))
    }

    fn into_pyobject(self) -> (r: PyObjectRc<T>) {
        text_object(self.as_str())
    }
}

} // verus!
