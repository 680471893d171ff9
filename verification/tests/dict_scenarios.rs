use pydict::dictdatatype::{Dict, DictError, DictKey};
use pydict::dictiter::{DictViewKind, DictYield, PyDictIterator, PyDictReverseIterator};
use pydict::objdict::{PyDict, PyDictRef};
use pydict::payload::{hash_str, HashValue, PyObjectPayload, Text};
use pydict::pyobject::{PyComparisonOp, PyComparisonValue, PyValue};
use pydict::pyobjectrc::PyObjectRc;
use std::cell::RefCell;

#[derive(Debug)]
enum Obj {
    Nil,
    Int(i64),
    Str(String),
    List(RefCell<Vec<i64>>),
    KeyError,
    Failure,
    Clearing(i64),
    Inserting(i64),
    Failing(i64),
    Missing(i64),
}

impl PyObjectPayload for Obj {
    type Key = ();

    fn key(&self) -> () {
        unreachable!()
    }

    fn hash_of(_k: ()) -> HashValue {
        unreachable!()
    }

    fn text(&self) -> Option<Text> {
        unreachable!()
    }

    fn text_key(_s: Text) -> () {
        unreachable!()
    }

    fn lemma_text_key(&self, _s: Text) {}

    fn lemma_text_hash(_s: Text) {}

    fn as_text(&self) -> Option<&str> {
        match self {
            Obj::Str(s) => Some(s.as_str()),
            _ => None,
        }
    }

    fn new_str(s: &str) -> Self {
        Obj::Str(s.to_owned())
    }
}

impl PyValue for Obj {
    fn is_pure(&self) -> bool {
        unreachable!()
    }

    fn is_infallible(&self) -> bool {
        unreachable!()
    }

    fn is_comparable(&self) -> bool {
        unreachable!()
    }

    fn is_printable(&self) -> bool {
        unreachable!()
    }

    fn raises(&self, _exception: PyObjectRc<Self>) -> bool {
        unreachable!()
    }

    fn is_none(&self) -> bool {
        unreachable!()
    }

    fn is_key_error(&self) -> bool {
        unreachable!()
    }

    fn eq_spec(&self, _other: &Self) -> bool {
        unreachable!()
    }

    fn repr_spec(&self) -> Text {
        unreachable!()
    }

    fn lemma_eq_reflexive(&self) {}
    fn hash(&self) -> Result<HashValue, PyObjectRc<Self>> {
        match self {
            Obj::Nil => Ok(0),
            Obj::Int(i) => Ok(*i),
            Obj::Str(s) => Ok(hash_str(s)),
            Obj::Clearing(i) | Obj::Inserting(i) | Obj::Failing(i) | Obj::Missing(i) => Ok(*i),
            _ => Err(PyObjectRc::new(Obj::Failure)),
        }
    }

    fn equals(&self, other: &PyObjectRc<Self>, dict: &mut Dict<Self>) -> Result<bool, PyObjectRc<Self>> {
        match self {
            Obj::Clearing(_) => {
                if dict.room() >= 2 && !dict.is_empty() {
                    dict.clear();
                }
                return Ok(false);
            }
            Obj::Inserting(i) => {
                if dict.room() >= 2 && dict.len() < 100 {
                    let fresh = 1000 + dict.len() as i64 * 8 + (*i % 8);
                    assert!(dict.insert(PyObjectRc::new(Obj::Int(fresh)), PyObjectRc::new(Obj::Nil)).is_ok());
                }
                return Ok(matches!(other.as_ref(), Obj::Inserting(j) if i == j));
            }
            Obj::Failing(_) => return Err(PyObjectRc::new(Obj::Failure)),
            Obj::Missing(_) => return Err(PyObjectRc::new(Obj::KeyError)),
            _ => {}
        }
        Ok(match (self, other.as_ref()) {
            (Obj::Nil, Obj::Nil) => true,
            (Obj::Int(a), Obj::Int(b)) => a == b,
            (Obj::Str(a), Obj::Str(b)) => a == b,
            _ => false,
        })
    }

    fn none() -> Self {
        Obj::Nil
    }

    fn key_error(&self) -> bool {
        matches!(self, Obj::KeyError)
    }

    fn value_eq(&self, other: &Self) -> Result<bool, PyObjectRc<Self>> {
        Ok(match (self, other) {
            (Obj::Nil, Obj::Nil) => true,
            (Obj::Int(a), Obj::Int(b)) => a == b,
            (Obj::Str(a), Obj::Str(b)) => a == b,
            (Obj::List(a), Obj::List(b)) => *a.borrow() == *b.borrow(),
            (Obj::Failure, _) => return Err(PyObjectRc::new(Obj::Failure)),
            _ => false,
        })
    }

    fn repr(&self) -> Result<String, PyObjectRc<Self>> {
        Ok(match self {
            Obj::Nil => "None".to_owned(),
            Obj::Int(i) => format!("{}", i),
            Obj::Str(s) => format!("'{}'", s),
            Obj::List(l) => format!("{:?}", l.borrow()),
            Obj::KeyError => "KeyError()".to_owned(),
            Obj::Failure => return Err(PyObjectRc::new(Obj::Failure)),
            _ => "<object>".to_owned(),
        })
    }
}

fn num(i: i64) -> PyObjectRc<Obj> {
    PyObjectRc::new(Obj::Int(i))
}

fn as_int(o: &PyObjectRc<Obj>) -> i64 {
    match o.as_ref() {
        Obj::Int(i) => *i,
        other => panic!("not an int: {:?}", other),
    }
}

fn as_str(o: &PyObjectRc<Obj>) -> String {
    match o.as_ref() {
        Obj::Str(s) => s.clone(),
        other => panic!("not a str: {:?}", other),
    }
}

fn abc() -> PyDict<Obj> {
    let mut d = PyDict::new();
    assert!(d.setitem("a", num(1)).is_ok());
    assert!(d.setitem("b", num(2)).is_ok());
    assert!(d.setitem("c", num(3)).is_ok());
    d
}

fn items(d: &PyDict<Obj>) -> Vec<(String, i64)> {
    let mut out = Vec::new();
    let mut position = 0;
    while let Some((k, v, next)) = d.next_live_entry(position) {
        out.push((as_str(&k), as_int(&v)));
        position = next;
    }
    out
}

#[test]
fn pop_most_recent_takes_the_last_inserted() {
    let mut d = abc();
    let (k, v) = match d.popitem() {
        Ok(item) => item,
        Err(_) => panic!("popitem failed"),
    };
    assert_eq!(as_str(&k), "c");
    assert_eq!(as_int(&v), 3);
    assert_eq!(items(&d), vec![("a".to_owned(), 1), ("b".to_owned(), 2)]);
}

#[test]
fn pop_most_recent_on_empty_fails() {
    let mut d: PyDict<Obj> = PyDict::new();
    assert!(matches!(d.popitem(), Err(DictError::EmptyCollectionOnPop)));
    let mut e: Dict<Obj> = Dict::new();
    assert!(matches!(e.pop_most_recent(), Err(DictError::EmptyCollectionOnPop)));
}

#[test]
fn forward_iterator_fails_after_insert() {
    let mut d: PyDict<Obj> = PyDict::new();
    assert!(d.setitem("a", num(1)).is_ok());
    assert!(d.setitem("b", num(2)).is_ok());
    let mut it = PyDictIterator::new(&d, DictViewKind::Items);
    match it.next(&d) {
        Ok(Some(DictYield::Item(k, v))) => {
            assert_eq!(as_str(&k), "a");
            assert_eq!(as_int(&v), 1);
        }
        _ => panic!("first step failed"),
    }
    assert!(d.setitem("c", num(3)).is_ok());
    assert!(matches!(it.next(&d), Err(DictError::StructuralChangeDuringIteration)));
}

#[test]
fn clone_shares_values_but_not_structure() {
    let mut d: PyDict<Obj> = PyDict::new();
    let list = PyObjectRc::new(Obj::List(RefCell::new(vec![1])));
    assert!(d.setitem("a", list).is_ok());
    let mut e = d.copy();
    assert!(e.setitem("b", num(2)).is_ok());
    assert_eq!(d.len(), 1);
    assert_eq!(e.len(), 2);
    assert!(e.delitem("a").is_ok());
    assert_eq!(d.len(), 1);
    assert!(d.contains_key("a"));
    let mut f = d.copy();
    let through_copy = match f.get(&"a", None) {
        Ok(v) => v,
        Err(_) => panic!("get failed"),
    };
    match through_copy.as_ref() {
        Obj::List(l) => l.borrow_mut().push(2),
        _ => panic!("not a list"),
    }
    let through_first = match d.get(&"a", None) {
        Ok(v) => v,
        Err(_) => panic!("get failed"),
    };
    match through_first.as_ref() {
        Obj::List(l) => assert_eq!(*l.borrow(), vec![1, 2]),
        _ => panic!("not a list"),
    }
    assert!(through_copy.is(&through_first));
}

#[test]
fn reverse_iteration_yields_last_first() {
    let d = abc();
    let mut it = PyDictReverseIterator::new(&d, DictViewKind::Items);
    let mut seen = Vec::new();
    loop {
        match it.next(&d) {
            Ok(Some(DictYield::Item(k, v))) => seen.push((as_str(&k), as_int(&v))),
            Ok(None) => break,
            _ => panic!("step failed"),
        }
    }
    assert_eq!(seen, vec![("c".to_owned(), 3), ("b".to_owned(), 2), ("a".to_owned(), 1)]);
    assert!(matches!(it.next(&d), Ok(None)));
}

#[test]
fn survives_resizes() {
    let n = 500;
    let mut d: PyDict<Obj> = PyDict::new();
    for i in 0..n {
        assert!(d.setitem(format!("k{}", i), num(i)).is_ok());
    }
    for i in (0..n).step_by(2) {
        assert!(d.delitem(format!("k{}", i)).is_ok());
    }
    for i in 0..n {
        assert!(d.setitem(format!("n{}", i), num(1000 + i)).is_ok());
    }
    for i in 0..n {
        let old = d.get(&format!("k{}", i), None).ok().map(|v| match v.as_ref() {
            Obj::Int(x) => Some(*x),
            Obj::Nil => None,
            _ => panic!("unexpected"),
        });
        assert_eq!(old, Some(if i % 2 == 1 { Some(i) } else { None }));
        let new = d.get(&format!("n{}", i), None).ok().map(|v| as_int(&v));
        assert_eq!(new, Some(1000 + i));
    }
    assert_eq!(d.len() as i64, n / 2 + n);
    let keys: Vec<String> = items(&d).into_iter().map(|(k, _)| k).collect();
    let mut expected = Vec::new();
    for i in (1..n).step_by(2) {
        expected.push(format!("k{}", i));
    }
    for i in 0..n {
        expected.push(format!("n{}", i));
    }
    assert_eq!(keys, expected);
}

#[test]
fn object_keys_and_text_keys_meet() {
    let mut d: PyDict<Obj> = PyDict::new();
    assert!(d.setitem(PyObjectRc::new(Obj::Str("a".to_owned())), num(1)).is_ok());
    assert!(d.contains_key("a"));
    assert!(d.setitem(num(7), num(2)).is_ok());
    assert!(d.contains_key(num(7)));
    assert!(!d.contains_key(num(8)));
    let k: PyObjectRc<Obj> = "a".into_pyobject();
    assert_eq!(as_str(&k), "a");
}

fn obj(o: Obj) -> PyObjectRc<Obj> {
    PyObjectRc::new(o)
}

#[test]
fn a_key_that_cannot_be_hashed_is_refused() {
    let mut d: Dict<Obj> = Dict::new();
    assert!(d.insert(num(1), num(1)).is_ok());
    let before = d.size();
    let list = obj(Obj::List(RefCell::new(vec![])));
    assert!(matches!(d.insert(list.clone(), num(2)), Err(DictError::Raised(_))));
    assert!(matches!(d.get(&list), Err(DictError::Raised(_))));
    assert!(matches!(d.contains(&list), Err(DictError::Raised(_))));
    assert!(matches!(d.delete(list.clone()), Err(DictError::Raised(_))));
    assert!(matches!(d.pop(&list), Err(DictError::Raised(_))));
    assert_eq!(d.size(), before);
    assert_eq!(d.len(), 1);
}

#[test]
fn a_comparison_that_fails_leaves_the_dictionary_alone() {
    let mut d: Dict<Obj> = Dict::new();
    for i in 0..4 {
        assert!(d.insert(num(i), num(i)).is_ok());
    }
    let before = d.size();
    match d.insert(obj(Obj::Failing(2)), num(9)) {
        Err(DictError::Raised(e)) => assert!(matches!(e.as_ref(), Obj::Failure)),
        _ => panic!("expected the failure of the comparison"),
    }
    assert!(matches!(d.delete(obj(Obj::Failing(2))), Err(DictError::Raised(_))));
    assert!(matches!(d.get(&obj(Obj::Failing(2))), Err(DictError::Raised(_))));
    assert_eq!(d.size(), before);
    for i in 0..4 {
        assert_eq!(d.get(&num(i)).ok().flatten().map(|v| as_int(&v)), Some(i));
    }
    assert!(d.insert(obj(Obj::Failing(50)), num(9)).is_ok());
    assert_eq!(d.len(), 5);
}

#[test]
fn a_comparison_that_clears_the_dictionary_restarts_the_lookup() {
    let mut d: Dict<Obj> = Dict::new();
    for i in 0..4 {
        assert!(d.insert(num(i), num(i)).is_ok());
    }
    assert!(matches!(d.get(&obj(Obj::Clearing(2))), Ok(None)));
    assert_eq!(d.len(), 0);
    assert_eq!(d.size().indices_size, 8);
    for i in 0..4 {
        assert!(d.insert(num(i), num(i)).is_ok());
    }
    assert!(d.insert(obj(Obj::Clearing(2)), num(7)).is_ok());
    assert_eq!(d.len(), 1);
    match d.next_live_entry(0) {
        Some((k, v, _)) => {
            assert!(matches!(k.as_ref(), Obj::Clearing(2)));
            assert_eq!(as_int(&v), 7);
        }
        None => panic!("the new key is there"),
    }
    let stored = match d.nth_live(0) {
        Some((k, _)) => k,
        None => panic!("the new key is there"),
    };
    assert!(matches!(d.contains(&stored), Ok(true)));
    assert_eq!(d.len(), 1);
    assert!(matches!(d.delete(obj(Obj::Clearing(2))), Err(DictError::KeyNotFound(_))));
    assert_eq!(d.len(), 0);
}

#[test]
fn a_comparison_that_inserts_keeps_the_dictionary_sound() {
    let mut d: Dict<Obj> = Dict::new();
    assert!(d.insert(num(3), num(30)).is_ok());
    assert!(d.insert(obj(Obj::Inserting(3)), num(1)).is_ok());
    let n = d.len();
    assert!(n >= 3);
    assert_eq!(d.get(&num(3)).ok().flatten().map(|v| as_int(&v)), Some(30));
    let mut position = 0;
    let mut seen = 0;
    while let Some((key, _, next)) = d.next_live_entry(position) {
        seen += 1;
        position = next;
        if let Obj::Int(i) = key.as_ref() {
            assert!(matches!(d.contains(&num(*i)), Ok(true)));
        }
    }
    assert_eq!(seen, d.len());
    assert_eq!(d.length_from(0), d.len());
}

#[test]
fn a_key_error_from_a_comparison_reads_as_missing() {
    let mut r = PyDictRef::new(PyDict::new());
    assert!(r.set_item(num(5), num(50)).is_ok());
    assert!(matches!(r.get_item_option(&obj(Obj::Missing(5))), Ok(None)));
    assert!(matches!(r.get_item_option(&obj(Obj::Failing(5))), Err(DictError::Raised(_))));
    assert!(matches!(r.get_item(obj(Obj::Missing(5))), Err(DictError::Raised(_))));
    assert_eq!(r.get_item_option(&num(5)).ok().flatten().map(|v| as_int(&v)), Some(50));
}

#[test]
fn comparing_and_printing_hand_failures_on() {
    let mut a = PyDictRef::new(PyDict::new());
    let mut b = PyDictRef::new(PyDict::new());
    assert!(a.set_item("k", obj(Obj::Failure)).is_ok());
    assert!(b.set_item("k", obj(Obj::Failure)).is_ok());
    assert!(matches!(PyDict::cmp(&mut a, &mut b, PyComparisonOp::Eq), Err(DictError::Raised(_))));
    let shared = obj(Obj::Failure);
    let mut c = PyDictRef::new(PyDict::new());
    let mut d = PyDictRef::new(PyDict::new());
    assert!(c.set_item("k", shared.clone()).is_ok());
    assert!(d.set_item("k", shared).is_ok());
    assert_eq!(
        PyDict::cmp(&mut c, &mut d, PyComparisonOp::Eq).ok(),
        Some(PyComparisonValue::Implemented(true))
    );
    assert!(matches!(a.as_dict().repr(false), Err(DictError::Raised(_))));
    assert_eq!(a.as_dict().repr(true).ok(), Some("{...}".to_owned()));
    let mut e: PyDict<Obj> = PyDict::new();
    assert!(e.setitem("n", num(1)).is_ok());
    assert!(e.setitem(num(2), obj(Obj::Nil)).is_ok());
    assert_eq!(e.repr(false).ok(), Some("{'n': 1, 2: None}".to_owned()));
}

#[test]
fn merging_hands_the_failure_of_a_key_on() {
    let mut source: PyDict<Obj> = PyDict::new();
    assert!(source.setitem(num(1), num(1)).is_ok());
    assert!(source.setitem(obj(Obj::Failing(2)), num(2)).is_ok());
    assert!(source.setitem(num(3), num(3)).is_ok());
    let mut target: PyDict<Obj> = PyDict::new();
    assert!(target.setitem(num(2), num(0)).is_ok());
    assert!(matches!(target.merge_dict(&source), Err(DictError::Raised(_))));
    assert_eq!(target.len(), 2);
    assert!(target.contains_key(num(1)));
    assert!(!target.contains_key(num(3)));
    let keys = vec![obj(Obj::List(RefCell::new(vec![])))];
    let made: Result<PyDict<Obj>, _> = PyDict::fromkeys(keys, None);
    assert!(matches!(made, Err(DictError::Raised(_))));
}

#[test]
fn a_failed_hash_comes_out_as_it_went_in() {
    let mut d: Dict<Obj> = Dict::new();
    assert!(d.insert(num(1), num(10)).is_ok());
    let before = d.size();
    let exception = obj(Obj::Failure);
    match d.insert_hashed(num(2), Err(exception.clone()), num(20)) {
        Err(DictError::Raised(e)) => assert!(e.is(&exception)),
        _ => panic!("expected the exception of the hash"),
    }
    match d.get_hashed(&num(1), Err(exception.clone())) {
        Err(DictError::Raised(e)) => assert!(e.is(&exception)),
        _ => panic!("expected the exception of the hash"),
    }
    match d.contains_hashed(&num(1), Err(exception.clone())) {
        Err(DictError::Raised(e)) => assert!(e.is(&exception)),
        _ => panic!("expected the exception of the hash"),
    }
    match d.delete_hashed(num(1), Err(exception.clone())) {
        Err(DictError::Raised(e)) => assert!(e.is(&exception)),
        _ => panic!("expected the exception of the hash"),
    }
    match d.pop_hashed(&num(1), Err(exception.clone())) {
        Err(DictError::Raised(e)) => assert!(e.is(&exception)),
        _ => panic!("expected the exception of the hash"),
    }
    assert_eq!(d.size(), before);
    assert!(d.insert_hashed(num(2), Ok(2), num(20)).is_ok());
    assert_eq!(d.get_hashed(&num(2), Ok(2)).ok().flatten().map(|v| as_int(&v)), Some(20));
    assert!(matches!(d.contains_hashed(&num(3), Ok(3)), Ok(false)));
    assert_eq!(d.pop_hashed(&num(2), Ok(2)).ok().flatten().map(|v| as_int(&v)), Some(20));
    assert!(d.delete_hashed(num(1), Ok(1)).is_ok());
    assert!(matches!(d.delete_hashed(num(1), Ok(1)), Err(DictError::KeyNotFound(_))));
    assert!(d.is_empty());
}

#[test]
fn a_view_prints_only_what_it_shows() {
    let mut d: PyDict<Obj> = PyDict::new();
    assert!(d.setitem("k", obj(Obj::Failure)).is_ok());
    assert_eq!(d.keys().repr(&d, false).ok(), Some("dict_keys(['k'])".to_owned()));
    assert!(matches!(d.values().repr(&d, false), Err(DictError::Raised(_))));
    assert!(matches!(d.items().repr(&d, false), Err(DictError::Raised(_))));
    assert!(matches!(d.repr(false), Err(DictError::Raised(_))));
    let empty: PyDict<Obj> = PyDict::new();
    assert_eq!(empty.repr(false).ok(), Some("{}".to_owned()));
    assert_eq!(empty.values().repr(&empty, false).ok(), Some("dict_values([])".to_owned()));
}
