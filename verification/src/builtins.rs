//! The objects that the library knows by itself: none, integers and native
//! text.
//!
//! They are the plainest objects that a dictionary can hold. Two of them are
//! the same key exactly when they are the same none, the same number or the
//! same text; hashing and comparing them never fail and never touch a
//! dictionary.

use crate::dictdatatype::Dict;
use crate::objnone::PyNone;
use crate::payload::{hash_str, str_eq, str_hash, HashValue, PyObjectPayload};
use crate::pyobject::{PyResult, PyValue};
use crate::pyobjectrc::PyObjectRc;
use vstd::prelude::*;
use vstd::string::StringExecFns;

verus! {

/// The hash of the none object.
pub const NONE_HASH: HashValue = 0x0ca1_1ab1_e5ee_d5;

/// An object that is none, an integer or a native text.
pub enum PyBuiltin {
    Nil(PyNone),
    Int(i64),
    Str(String),
}

/// What a builtin object is as a dictionary key.
pub enum BuiltinKey {
    Nil,
    Int(int),
    Text(Seq<char>),
}

/// The character of a decimal digit.
pub open spec fn digit_char(d: int) -> char {
    if d == 0 {
        '0'
    } else if d == 1 {
        '1'
    } else if d == 2 {
        '2'
    } else if d == 3 {
        '3'
    } else if d == 4 {
        '4'
    } else if d == 5 {
        '5'
    } else if d == 6 {
        '6'
    } else if d == 7 {
        '7'
    } else if d == 8 {
        '8'
    } else {
        '9'
    }
}

/// The decimal digits of a natural number, without leading zeros.
pub open spec fn nat_repr(n: nat) -> Seq<char>
    decreases n,
{
    if n < 10 {
        seq![digit_char(n as int)]
    } else {
        nat_repr(n / 10).push(digit_char((n % 10) as int))
    }
}

/// The printed form of an integer: its decimal digits, after a minus sign if
/// it is negative.
pub open spec fn int_repr(i: int) -> Seq<char> {
    if i < 0 {
        seq!['-'] + nat_repr((-i) as nat)
    } else {
        nat_repr(i as nat)
    }
}

/// The text of one decimal digit.
fn digit_str(d: u64) -> (s: &'static str)
    requires
        d < 10,
    ensures
        s@ == seq![digit_char(d as int)],
{
    proof {
        reveal_strlit("0");
        reveal_strlit("1");
        reveal_strlit("2");
        reveal_strlit("3");
        reveal_strlit("4");
        reveal_strlit("5");
        reveal_strlit("6");
        reveal_strlit("7");
        reveal_strlit("8");
        reveal_strlit("9");
    }
    let s = if d == 0 {
        "0"
    } else if d == 1 {
        "1"
    } else if d == 2 {
        "2"
    } else if d == 3 {
        "3"
    } else if d == 4 {
        "4"
    } else if d == 5 {
        "5"
    } else if d == 6 {
        "6"
    } else if d == 7 {
        "7"
    } else if d == 8 {
        "8"
    } else {
        "9"
    };
    s
}

/// The decimal digits of `n`.
pub fn nat_to_string(n: u64) -> (s: String)
    ensures
        s@ == nat_repr(n as nat),
    decreases n,
{
    if n < 10 {
        String::from_str(digit_str(n))
    } else {
        let mut s = nat_to_string(n / 10);
        s.append(digit_str(n % 10));
        s
    }
}

/// The printed form of `i`.
pub fn int_to_string(i: i64) -> (s: String)
    ensures
        s@ == int_repr(i as int),
{
    if i < 0 {
        let magnitude: u64 = if i == i64::MIN {
            0x8000_0000_0000_0000u64
        } else {
            (-i) as u64
        };
        let mut s = String::from_str("-");
        let digits = nat_to_string(magnitude);
        s.append(digits.as_str());
        proof {
            reveal_strlit("-");
        }
        s
    } else {
        nat_to_string(i as u64)
    }
}

impl PyBuiltin {
    /// The printed form of a text: the text between single quotes.
    pub open spec fn text_repr(s: Seq<char>) -> Seq<char> {
        seq!['\''] + s + seq!['\'']
    }
}

impl PyObjectPayload for PyBuiltin {
    type Key = BuiltinKey;

    open spec fn key(&self) -> BuiltinKey {
        match self {
            PyBuiltin::Nil(_) => BuiltinKey::Nil,
            PyBuiltin::Int(i) => BuiltinKey::Int(*i as int),
            PyBuiltin::Str(s) => BuiltinKey::Text(s@),
        }
    }

    open spec fn hash_of(k: BuiltinKey) -> HashValue {
        match k {
            BuiltinKey::Nil => NONE_HASH,
            BuiltinKey::Int(i) => i as i64,
            BuiltinKey::Text(s) => str_hash(s),
        }
    }

    open spec fn text(&self) -> Option<Seq<char>> {
        match self {
            PyBuiltin::Str(s) => Some(s@),
            _ => None,
        }
    }

    open spec fn text_key(s: Seq<char>) -> BuiltinKey {
        BuiltinKey::Text(s)
    }

    proof fn lemma_text_key(&self, s: Seq<char>) {
    }

    proof fn lemma_text_hash(s: Seq<char>) {
    }

    fn as_text(&self) -> (r: Option<&str>) {
        match self {
            PyBuiltin::Str(s) => Some(s.as_str()),
            _ => None,
        }
    }

    fn new_str(s: &str) -> (r: Self) {
        PyBuiltin::Str(s.to_owned())
    }
}

impl PyValue for PyBuiltin {
    open spec fn is_pure(&self) -> bool {
        true
    }

    open spec fn is_infallible(&self) -> bool {
        true
    }

    open spec fn is_comparable(&self) -> bool {
        true
    }

    open spec fn is_printable(&self) -> bool {
        true
    }

    open spec fn raises(&self, exception: PyObjectRc<Self>) -> bool {
        false
    }

    open spec fn is_none(&self) -> bool {
        self is Nil
    }

    open spec fn is_key_error(&self) -> bool {
        false
    }

    open spec fn eq_spec(&self, other: &Self) -> bool {
        self.key() == other.key()
    }

    open spec fn repr_spec(&self) -> Seq<char> {
        match self {
            PyBuiltin::Nil(_) => "None"@,
            PyBuiltin::Int(i) => int_repr(*i as int),
            PyBuiltin::Str(s) => PyBuiltin::text_repr(s@),
        }
    }

    proof fn lemma_eq_reflexive(&self) {
    }

    fn hash(&self) -> (r: PyResult<Self, HashValue>) {
        match self {
            PyBuiltin::Nil(_) => Ok(NONE_HASH),
            PyBuiltin::Int(i) => Ok(*i),
            PyBuiltin::Str(s) => Ok(hash_str(s.as_str())),
        }
    }

    fn equals(&self, other: &PyObjectRc<Self>, dict: &mut Dict<Self>) -> (r: PyResult<Self, bool>) {
        proof {
            Dict::lemma_evolves(dict, dict, dict);
        }
        Ok(self.same_key(other.as_ref()))
    }

    fn none() -> (r: Self) {
        PyBuiltin::Nil(PyNone)
    }

    fn key_error(&self) -> (r: bool) {
        false
    }

    /// Builtin objects are equal as values exactly when they are the same
    /// key; comparing them never fails.
    fn value_eq(&self, other: &Self) -> (r: PyResult<Self, bool>)
        ensures
            r matches Ok(b) && b == self.eq_spec(other),
    {
        Ok(self.same_key(other))
    }

    /// The printed form: `None`, the decimal digits of an integer, or a
    /// text between single quotes. Printing a builtin object never fails.
    fn repr(&self) -> (r: PyResult<Self, String>)
        ensures
            r matches Ok(s) && s@ == self.repr_spec(),
    {
        match self {
            PyBuiltin::Nil(n) => Ok(n.repr()),
            PyBuiltin::Int(i) => Ok(int_to_string(*i)),
            PyBuiltin::Str(s) => {
                let mut quoted = String::from_str("'");
                quoted.append(s.as_str());
                quoted.append("'");
                proof {
                    reveal_strlit("'");
                }
                Ok(quoted)
            },
        }
    }
}

impl PyBuiltin {
    /// Whether this object and `other` are the same none, the same number or
    /// the same text.
    pub fn same_key(&self, other: &Self) -> (r: bool)
        ensures
            r == (self.key() == other.key()),
    {
        match self {
            PyBuiltin::Nil(_) => match other {
                PyBuiltin::Nil(_) => true,
                _ => false,
            },
            PyBuiltin::Int(a) => match other {
                PyBuiltin::Int(b) => *a == *b,
                _ => false,
            },
            PyBuiltin::Str(a) => match other {
                PyBuiltin::Str(b) => str_eq(a.as_str(), b.as_str()),
                _ => false,
            },
        }
    }
}

} // verus!
