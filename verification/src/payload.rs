//! What the dictionary needs to know of the objects it stores.
//!
//! The dictionary never looks into an object. It asks the object's type for
//! the mathematical value that decides which keys are the same
//! ([`PyObjectPayload::key`]), and for the one piece of structure that it
//! handles itself: whether the object is a piece of native text.

use vstd::prelude::*;
use vstd::string::StringSliceAdditionalSpecFns;
use vstd::wrapping::u64_specs;

verus! {

/// The hash of an object, as the runtime reports it.
pub type HashValue = i64;

/// The characters of a native text.
pub type Text = Seq<char>;

/// The hash of the empty text.
pub const TEXT_HASH_OFFSET: u64 = 0xcbf2_9ce4_8422_2325;

/// The factor by which each byte of a text is mixed in.
pub const TEXT_HASH_PRIME: u64 = 0x0000_0100_0000_01b3;

/// The hash of a sequence of bytes: starting from `TEXT_HASH_OFFSET`, each
/// byte is xor-ed in and the result multiplied by `TEXT_HASH_PRIME`, modulo
/// 2^64.
pub open spec fn bytes_hash(bytes: Seq<u8>) -> u64
    decreases bytes.len(),
{
    if bytes.len() == 0 {
        TEXT_HASH_OFFSET
    } else {
        u64_specs::wrapping_mul(
            bytes_hash(bytes.drop_last()) ^ (bytes.last() as u64),
            TEXT_HASH_PRIME,
        )
    }
}

/// The hash of a native text: the hash of its UTF-8 bytes, read as a signed
/// number.
pub open spec fn str_hash(text: Seq<char>) -> HashValue {
    bytes_hash(vstd::utf8::encode_utf8(text)) as i64
}

/// Computes the hash of a native text.
pub fn hash_str(text: &str) -> (h: HashValue)
    ensures
        h == str_hash(text@),
{
    let bytes = text.as_bytes();
    let mut h: u64 = TEXT_HASH_OFFSET;
    let mut i: usize = 0;
    while i < bytes.len()
        invariant
            i <= bytes@.len(),
            bytes@ == text.spec_bytes(),
            h == bytes_hash(bytes@.take(i as int)),
        decreases bytes@.len() - i,
    {
        proof {
            assert(bytes@.take(i + 1).drop_last() == bytes@.take(i as int));
        }
        h = (h ^ (bytes[i] as u64)).wrapping_mul(TEXT_HASH_PRIME);
        i += 1;
    }
    proof {
        assert(bytes@.take(i as int) == bytes@);
    }
    h as i64
}

/// `str == str` of std: whether the two texts hold the same characters.
#[verifier::external_body]
pub(crate) fn str_eq(a: &str, b: &str) -> (r: bool)
    ensures
        r == (a@ == b@),
{
    a == b
}

/// The type of the objects that a dictionary holds, keys and values alike.
///
/// `Key` is what an object is as a dictionary key: two objects are the same
/// key exactly when their `key()` is the same, and every object with a given
/// key has the hash `hash_of` of it. An object that is a native text says so
/// through `text()`; its key is then `text_key` of that text, which no other
/// object shares, and its hash is `str_hash` of the text.
pub trait PyObjectPayload: Sized {
    type Key;

    /// What this object is as a dictionary key.
    spec fn key(&self) -> Self::Key;

    /// The hash of every object whose key is `k`.
    spec fn hash_of(k: Self::Key) -> HashValue;

    /// The text that this object holds, if it is a native text.
    spec fn text(&self) -> Option<Seq<char>>;

    /// The key of the native text `s`.
    spec fn text_key(s: Seq<char>) -> Self::Key;

    /// An object has the key of the text `s` exactly when it is that text.
    proof fn lemma_text_key(&self, s: Seq<char>)
        ensures
            (self.key() == Self::text_key(s)) <==> (self.text() == Some(s)),
    ;

    /// A native text hashes as `str_hash` says.
    proof fn lemma_text_hash(s: Seq<char>)
        ensures
            Self::hash_of(Self::text_key(s)) == str_hash(s),
    ;

    /// The text of this object, if it is a native text.
    fn as_text(&self) -> (r: Option<&str>)
        ensures
            match r {
                Some(s) => self.text() == Some(s@),
                None => self.text() is None,
            },
    ;

    /// A new object that is the native text `s`.
    fn new_str(s: &str) -> (r: Self)
        ensures
            r.text() == Some(s@),
    ;
}

} // verus!
