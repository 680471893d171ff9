use pydict::builtins::{int_to_string, nat_to_string, PyBuiltin, NONE_HASH};
use pydict::dictdatatype::{Dict, DictError, DictKey, TypeErrorKind, MIN_CAPACITY};
use pydict::dictkey::HashedStr;
use pydict::dictiter::{DictViewKind, DictYield, PyDictIterator, PyDictReverseIterator, PyDictView};
use pydict::objdict::{missing_if_key_error, DictIter, DictSource, PyDict, PyDictRef, PyMapping};
use pydict::objnone::{into_pyobject, PyNone};
use pydict::payload::{hash_str, PyObjectPayload};
use pydict::pyobject::{PyComparisonOp, PyComparisonValue, PyValue};
use pydict::pyobjectrc::PyObjectRc;

type Object = PyObjectRc<PyBuiltin>;

fn num(i: i64) -> Object {
    PyObjectRc::new(PyBuiltin::Int(i))
}

fn text(s: &str) -> Object {
    PyObjectRc::new(PyBuiltin::Str(s.to_owned()))
}

fn as_num(o: &Object) -> i64 {
    match o.as_ref() {
        PyBuiltin::Int(i) => *i,
        _ => panic!("not an integer"),
    }
}

fn as_text(o: &Object) -> String {
    match o.as_ref() {
        PyBuiltin::Str(s) => s.clone(),
        _ => panic!("not a text"),
    }
}

fn dict_of(pairs: &[(&str, i64)]) -> PyDict<PyBuiltin> {
    let mut d = PyDict::new();
    for (k, v) in pairs {
        assert!(d.setitem(*k, num(*v)).is_ok());
    }
    d
}

fn pairs_of(d: &PyDict<PyBuiltin>) -> Vec<(String, i64)> {
    let mut out = Vec::new();
    let mut position = 0;
    while let Some((k, v, next)) = d.next_live_entry(position) {
        out.push((as_text(&k), as_num(&v)));
        position = next;
    }
    out
}

fn owned(pairs: &[(&str, i64)]) -> Vec<(String, i64)> {
    pairs.iter().map(|(k, v)| ((*k).to_owned(), *v)).collect()
}

#[test]
fn keys_come_in_first_insertion_order() {
    let mut d = dict_of(&[("a", 1), ("b", 2), ("c", 3)]);
    assert!(d.setitem("a", num(10)).is_ok());
    assert_eq!(pairs_of(&d), owned(&[("a", 10), ("b", 2), ("c", 3)]));
    let keys: Vec<String> = Dict::keys(&{
        let mut e: Dict<PyBuiltin> = Dict::new();
        assert!(e.insert("x", num(1)).is_ok());
        assert!(e.insert("y", num(2)).is_ok());
        e
    })
    .iter()
    .map(as_text)
    .collect();
    assert_eq!(keys, vec!["x".to_owned(), "y".to_owned()]);
}

#[test]
fn deleted_and_reinserted_key_moves_to_the_end() {
    let mut d = dict_of(&[("a", 1), ("b", 2), ("c", 3)]);
    assert!(d.delitem("b").is_ok());
    assert_eq!(pairs_of(&d), owned(&[("a", 1), ("c", 3)]));
    assert!(d.setitem("b", num(4)).is_ok());
    assert_eq!(pairs_of(&d), owned(&[("a", 1), ("c", 3), ("b", 4)]));
}

#[test]
fn insert_then_get_then_delete() {
    let mut d: Dict<PyBuiltin> = Dict::new();
    assert!(d.insert("k", num(5)).is_ok());
    assert_eq!(d.get(&"k").ok().flatten().map(|v| as_num(&v)), Some(5));
    assert!(matches!(d.contains(&"k"), Ok(true)));
    assert!(d.delete("k").is_ok());
    assert!(matches!(d.get(&"k"), Ok(None)));
    assert!(matches!(d.contains(&"k"), Ok(false)));
    match d.delete("k") {
        Err(DictError::KeyNotFound(key)) => assert_eq!(as_text(&key), "k"),
        _ => panic!("expected KeyNotFound"),
    }
    assert!(matches!(d.pop(&"k"), Ok(None)));
}

#[test]
fn overwrite_keeps_version_and_new_key_advances_it() {
    let mut d: Dict<PyBuiltin> = Dict::new();
    assert_eq!(d.size().version, 0);
    assert!(d.insert("a", num(1)).is_ok());
    assert_eq!(d.size().version, 1);
    let snapshot = d.size();
    assert!(d.insert("a", num(2)).is_ok());
    assert_eq!(d.size().version, 1);
    assert!(!d.has_structurally_changed(&snapshot));
    assert!(d.delete("a").is_ok());
    assert_eq!(d.size().version, 2);
    assert!(d.has_structurally_changed(&snapshot));
    assert!(d.insert("a", num(3)).is_ok());
    assert_eq!(d.size().version, 3);
    assert!(matches!(d.pop_most_recent(), Ok(Some(_))));
    assert_eq!(d.size().version, 4);
    d.clear();
    assert_eq!(d.size().version, 5);
    assert!(d.has_room());
    assert_eq!(d.room(), usize::MAX / 8 - 5);
}

#[test]
fn table_doubles_when_two_thirds_are_used() {
    let mut d: Dict<PyBuiltin> = Dict::new();
    assert_eq!(d.size().indices_size, MIN_CAPACITY);
    for i in 0..5 {
        assert!(d.insert(num(i), num(i)).is_ok());
    }
    assert_eq!(d.size().indices_size, 8);
    assert_eq!(d.size().filled, 5);
    assert!(d.insert(num(5), num(5)).is_ok());
    assert_eq!(d.size().indices_size, 16);
    assert_eq!(d.size().filled, 6);
    assert_eq!(d.size().entries_size, 6);
    assert_eq!(d.sizeof(), 16 + 6);
    for i in 6..10 {
        assert!(d.insert(num(i), num(i)).is_ok());
    }
    assert_eq!(d.size().indices_size, 16);
    assert!(d.insert(num(10), num(10)).is_ok());
    assert_eq!(d.size().indices_size, 32);
    for i in 0..11 {
        assert_eq!(d.get(&num(i)).ok().flatten().map(|v| as_num(&v)), Some(i));
    }
}

#[test]
fn rebuild_drops_dead_entries_and_tombstones() {
    let mut d: Dict<PyBuiltin> = Dict::new();
    for i in 0..5 {
        assert!(d.insert(num(i), num(i)).is_ok());
    }
    for i in 0..4 {
        assert!(d.delete(num(i)).is_ok());
    }
    let size = d.size();
    assert_eq!((size.used, size.filled, size.entries_size, size.indices_size), (1, 5, 5, 8));
    assert!(d.insert(num(100), num(100)).is_ok());
    let size = d.size();
    assert_eq!((size.used, size.filled, size.entries_size, size.indices_size), (2, 5, 6, 8));
    assert!(d.insert(num(5), num(5)).is_ok());
    let size = d.size();
    assert_eq!((size.used, size.filled, size.entries_size, size.indices_size), (3, 3, 3, 16));
    assert_eq!(d.len(), 3);
    let keys: Vec<i64> = d.keys().iter().map(as_num).collect();
    assert_eq!(keys, vec![4, 100, 5]);
}

#[test]
fn tombstone_is_reused_by_a_new_key() {
    let mut d: Dict<PyBuiltin> = Dict::new();
    assert!(d.insert(num(1), num(1)).is_ok());
    assert!(d.delete(num(1)).is_ok());
    let size = d.size();
    assert_eq!((size.used, size.filled, size.entries_size), (0, 1, 1));
    assert!(d.insert(num(1), num(2)).is_ok());
    let size = d.size();
    assert_eq!((size.used, size.filled, size.entries_size), (1, 1, 2));
    assert_eq!(d.length_from(0), 1);
    assert_eq!(d.length_from(1), 1);
    assert_eq!(d.length_from(2), 0);
    assert_eq!(d.length_from(9), 0);
    match d.next_live_entry(0) {
        Some((k, v, next)) => {
            assert_eq!((as_num(&k), as_num(&v), next), (1, 2, 2));
        }
        None => panic!("expected an entry"),
    }
    assert!(d.next_live_entry(2).is_none());
    assert_eq!(d.nth_live(0).map(|(k, _)| as_num(&k)), Some(1));
    assert!(d.nth_live(1).is_none());
}

#[test]
fn clear_empties_and_resets_the_table() {
    let mut d = dict_of(&[("a", 1), ("b", 2), ("c", 3), ("d", 4), ("e", 5), ("f", 6)]);
    assert_eq!(d.size().indices_size, 16);
    d.clear();
    assert!(d.is_empty());
    assert!(!d.bool());
    assert_eq!(d.len(), 0);
    assert_eq!(d.size().indices_size, 8);
    assert_eq!(d.sizeof(), 1 + 8);
    assert!(d.next_live_entry(0).is_none());
}

#[test]
fn get_and_setdefault_and_pop_use_defaults() {
    let mut d = dict_of(&[("a", 1)]);
    assert_eq!(d.get(&"a", Some(num(9))).ok().map(|v| as_num(&v)), Some(1));
    assert_eq!(d.get(&"z", Some(num(9))).ok().map(|v| as_num(&v)), Some(9));
    assert!(matches!(d.get(&"z", None).ok().map(|v| matches!(v.as_ref(), PyBuiltin::Nil(_))), Some(true)));
    assert_eq!(d.setdefault("a", Some(num(7))).ok().map(|v| as_num(&v)), Some(1));
    assert_eq!(d.setdefault("b", Some(num(7))).ok().map(|v| as_num(&v)), Some(7));
    assert!(d.setdefault("c", None).is_ok());
    assert_eq!(d.len(), 3);
    assert_eq!(d.pop("a", None).ok().map(|v| as_num(&v)), Some(1));
    assert_eq!(d.pop("a", Some(num(3))).ok().map(|v| as_num(&v)), Some(3));
    match d.pop("a", None) {
        Err(DictError::KeyNotFound(key)) => assert_eq!(as_text(&key), "a"),
        _ => panic!("expected KeyNotFound"),
    }
    match d.getitem("nope") {
        Err(DictError::KeyNotFound(key)) => assert_eq!(as_text(&key), "nope"),
        _ => panic!("expected KeyNotFound"),
    }
    assert_eq!(d.getitem("b").ok().map(|v| as_num(&v)), Some(7));
}

#[test]
fn a_dictionary_has_no_hash() {
    let d: PyDict<PyBuiltin> = PyDict::new();
    assert!(matches!(d.hash(), Err(DictError::TypeError(TypeErrorKind::Unhashable))));
}

#[test]
fn merge_takes_dictionaries_pairs_and_keywords() {
    let other = dict_of(&[("b", 20), ("c", 30)]);
    let mut d = dict_of(&[("a", 1), ("b", 2)]);
    assert!(d.merge(Some(DictSource::Dict(&other)), vec![("z".to_owned(), num(26))]).is_ok());
    assert_eq!(pairs_of(&d), owned(&[("a", 1), ("b", 20), ("c", 30), ("z", 26)]));
    let elements = vec![vec![text("p"), num(1)], vec![text("a"), num(100)]];
    assert!(d.update(Some(DictSource::Pairs(elements)), Vec::new()).is_ok());
    assert_eq!(pairs_of(&d), owned(&[("a", 100), ("b", 20), ("c", 30), ("z", 26), ("p", 1)]));
    assert!(d.init(None, vec![("q".to_owned(), num(2))]).is_ok());
    assert_eq!(d.len(), 6);
}

#[test]
fn merge_stops_at_an_element_that_is_no_pair() {
    let mut d: PyDict<PyBuiltin> = PyDict::new();
    let elements =
        vec![vec![text("a"), num(1)], vec![text("b")], vec![text("c"), num(3)]];
    let r = d.merge(Some(DictSource::Pairs(elements)), vec![("k".to_owned(), num(0))]);
    assert!(matches!(r, Err(DictError::TypeError(TypeErrorKind::NotAPair))));
    assert_eq!(pairs_of(&d), owned(&[("a", 1)]));
    let three = vec![vec![text("a"), num(1), num(2)]];
    let mut e: PyDict<PyBuiltin> = PyDict::new();
    assert!(matches!(
        e.merge(Some(DictSource::Pairs(three)), Vec::new()),
        Err(DictError::TypeError(TypeErrorKind::NotAPair))
    ));
    assert!(e.is_empty());
}

#[test]
fn union_operators_need_a_dictionary() {
    let a = dict_of(&[("a", 1), ("b", 2)]);
    let b = dict_of(&[("b", 3), ("c", 4)]);
    let merged = match a.or(Some(&b)) {
        Ok(d) => d,
        Err(_) => panic!("or failed"),
    };
    assert_eq!(pairs_of(&merged), owned(&[("a", 1), ("b", 3), ("c", 4)]));
    assert_eq!(pairs_of(&a), owned(&[("a", 1), ("b", 2)]));
    let reflected = match a.ror(Some(&b)) {
        Ok(d) => d,
        Err(_) => panic!("ror failed"),
    };
    assert_eq!(pairs_of(&reflected), owned(&[("b", 2), ("c", 4), ("a", 1)]));
    let mut c = dict_of(&[("x", 0)]);
    assert!(c.ior(Some(&a)).is_ok());
    assert_eq!(pairs_of(&c), owned(&[("x", 0), ("a", 1), ("b", 2)]));
    assert!(matches!(c.ior(None), Err(DictError::TypeError(TypeErrorKind::NotADict))));
    assert!(matches!(a.or(None), Err(DictError::TypeError(TypeErrorKind::NotADict))));
    assert!(matches!(a.ror(None), Err(DictError::TypeError(TypeErrorKind::NotADict))));
    assert_eq!(pairs_of(&c), owned(&[("x", 0), ("a", 1), ("b", 2)]));
    let mut m = dict_of(&[("m", 1)]);
    assert!(m.merge_dict(&b).is_ok());
    assert_eq!(pairs_of(&m), owned(&[("m", 1), ("b", 3), ("c", 4)]));
}

#[test]
fn fromkeys_gives_every_key_the_same_value() {
    let d: PyDict<PyBuiltin> = match PyDict::fromkeys(vec!["a", "b", "a"], Some(num(0))) {
        Ok(d) => d,
        Err(_) => panic!("fromkeys failed"),
    };
    assert_eq!(pairs_of(&d), owned(&[("a", 0), ("b", 0)]));
    let mut e: PyDict<PyBuiltin> = match PyDict::fromkeys(vec![num(1), num(2)], None) {
        Ok(d) => d,
        Err(_) => panic!("fromkeys failed"),
    };
    assert_eq!(e.len(), 2);
    let v = e.getitem(num(2)).ok();
    assert!(matches!(v.as_ref().map(|v| v.as_ref()), Some(PyBuiltin::Nil(_))));
}

#[test]
fn attributes_go_in_and_come_out() {
    let attrs = vec![
        ("x".to_owned(), num(1)),
        ("y".to_owned(), num(2)),
        ("x".to_owned(), num(3)),
    ];
    let d: PyDict<PyBuiltin> = match PyDict::from_attributes(attrs) {
        Ok(d) => d,
        Err(_) => panic!("from_attributes failed"),
    };
    assert_eq!(pairs_of(&d), owned(&[("x", 3), ("y", 2)]));
    let out = PyDictRef::new(d).to_attributes();
    let out: Vec<(String, i64)> = out.iter().map(|(k, v)| (k.clone(), as_num(v))).collect();
    assert_eq!(out, owned(&[("x", 3), ("y", 2)]));
}

#[test]
fn dict_ref_looks_up_sets_and_deletes() {
    let mut r = PyDictRef::new(dict_of(&[("a", 1)]));
    assert_eq!(r.get_item_option(&"a").ok().flatten().map(|v| as_num(&v)), Some(1));
    assert!(matches!(r.get_item_option(&"b"), Ok(None)));
    assert!(r.set_item("b", num(2)).is_ok());
    assert_eq!(r.get_item("b").ok().map(|v| as_num(&v)), Some(2));
    assert!(r.del_item("a").is_ok());
    assert!(matches!(r.del_item("a"), Err(DictError::KeyNotFound(_))));
    assert!(matches!(r.get_item("a"), Err(DictError::KeyNotFound(_))));
    assert_eq!(r.as_dict().len(), 1);
    let d = r.into_inner();
    assert_eq!(pairs_of(&d), owned(&[("b", 2)]));
}

#[test]
fn dict_iter_walks_the_live_items() {
    let mut d = dict_of(&[("a", 1), ("b", 2), ("c", 3)]);
    assert!(d.delitem("b").is_ok());
    let mut it = DictIter::new(PyDictRef::new(d));
    assert_eq!(it.size_hint(), (2, Some(2)));
    assert_eq!(it.next().map(|(k, v)| (as_text(&k), as_num(&v))), Some(("a".to_owned(), 1)));
    assert_eq!(it.size_hint(), (1, Some(1)));
    assert_eq!(it.next().map(|(k, v)| (as_text(&k), as_num(&v))), Some(("c".to_owned(), 3)));
    assert_eq!(it.size_hint(), (0, Some(0)));
    assert!(it.next().is_none());
    assert!(it.next().is_none());
    let mut again = PyDictRef::new(dict_of(&[("z", 26)])).into_iter();
    assert_eq!(again.next().map(|(k, _)| as_text(&k)), Some("z".to_owned()));
}

#[test]
fn mapping_is_made_from_a_source() {
    let source = dict_of(&[("a", 1)]);
    let mapping = match PyMapping::try_from_object(DictSource::Dict(&source)) {
        Ok(m) => m,
        Err(_) => panic!("try_from_object failed"),
    };
    let d = mapping.into_dict().into_inner();
    assert_eq!(pairs_of(&d), owned(&[("a", 1)]));
    let bad: Result<PyMapping<PyBuiltin>, _> =
        PyMapping::try_from_object(DictSource::Pairs(vec![vec![num(1)]]));
    assert!(matches!(bad, Err(DictError::TypeError(TypeErrorKind::NotAPair))));
}

#[test]
fn views_make_fresh_iterators() {
    let mut d = dict_of(&[("a", 1), ("b", 2)]);
    let keys = d.keys();
    let values = d.values();
    let items = d.items();
    assert_eq!(keys.kind, DictViewKind::Keys);
    assert_eq!(values.kind, DictViewKind::Values);
    assert_eq!(items.kind, DictViewKind::Items);
    assert_eq!(keys.len(&d), 2);
    assert!(d.setitem("c", num(3)).is_ok());
    assert_eq!(keys.len(&d), 3);
    let mut it = values.iter(&d);
    let mut seen = Vec::new();
    while let Ok(Some(DictYield::Value(v))) = it.next(&d) {
        seen.push(as_num(&v));
    }
    assert_eq!(seen, vec![1, 2, 3]);
    let mut it = keys.iter(&d);
    assert_eq!(it.length_hint(&d), 3);
    assert!(matches!(it.next(&d), Ok(Some(DictYield::Key(_)))));
    assert_eq!(it.length_hint(&d), 2);
    let mut back = items.reversed(&d);
    assert_eq!(back.length_hint(&d), 3);
    match back.next(&d) {
        Ok(Some(DictYield::Item(k, v))) => assert_eq!((as_text(&k), as_num(&v)), ("c".to_owned(), 3)),
        _ => panic!("expected an item"),
    }
    assert_eq!(back.length_hint(&d), 2);
    let fresh = PyDictView::new(DictViewKind::Keys);
    let mut it = fresh.iter(&d);
    match it.next(&d) {
        Ok(Some(DictYield::Key(k))) => assert_eq!(as_text(&k), "a"),
        _ => panic!("expected a key"),
    }
}

#[test]
fn iterators_fail_after_any_change_of_keys() {
    let mut d = dict_of(&[("a", 1), ("b", 2)]);
    let mut forward = d.iter();
    let mut backward = d.reversed();
    assert!(d.delitem("a").is_ok());
    assert!(d.setitem("c", num(3)).is_ok());
    assert_eq!(d.len(), 2);
    assert!(matches!(forward.next(&d), Err(DictError::StructuralChangeDuringIteration)));
    assert!(matches!(backward.next(&d), Err(DictError::StructuralChangeDuringIteration)));
    let mut d = dict_of(&[("a", 1), ("b", 2)]);
    let mut forward = PyDictIterator::new(&d, DictViewKind::Keys);
    assert!(d.setitem("a", num(5)).is_ok());
    assert!(matches!(forward.next(&d), Ok(Some(_))));
    assert!(matches!(forward.next(&d), Ok(Some(_))));
    assert!(matches!(forward.next(&d), Ok(None)));
    assert!(matches!(forward.next(&d), Ok(None)));
}

#[test]
fn reverse_iterator_stays_exhausted() {
    let d = dict_of(&[("a", 1)]);
    let mut it = PyDictReverseIterator::new(&d, DictViewKind::Keys);
    assert!(matches!(it.next(&d), Ok(Some(_))));
    assert!(matches!(it.next(&d), Ok(None)));
    assert_eq!(it.length_hint(&d), 0);
    assert!(matches!(it.next(&d), Ok(None)));
    let empty: PyDict<PyBuiltin> = PyDict::new();
    let mut it = empty.reversed();
    assert!(matches!(it.next(&empty), Ok(None)));
}

#[test]
fn dictionaries_print() {
    let d = dict_of(&[("a", 1), ("b", -20)]);
    assert_eq!(d.repr(false).ok(), Some("{'a': 1, 'b': -20}".to_owned()));
    assert_eq!(d.repr(true).ok(), Some("{...}".to_owned()));
    let empty: PyDict<PyBuiltin> = PyDict::new();
    assert_eq!(empty.repr(false).ok(), Some("{}".to_owned()));
    assert_eq!(d.keys().repr(&d, false).ok(), Some("dict_keys(['a', 'b'])".to_owned()));
    assert_eq!(d.values().repr(&d, false).ok(), Some("dict_values([1, -20])".to_owned()));
    assert_eq!(
        d.items().repr(&d, false).ok(),
        Some("dict_items([('a', 1), ('b', -20)])".to_owned())
    );
    assert_eq!(d.items().repr(&d, true).ok(), Some("{...}".to_owned()));
    let mut n: PyDict<PyBuiltin> = PyDict::new();
    assert!(n.setitem(num(1), into_pyobject(None)).is_ok());
    assert_eq!(n.repr(false).ok(), Some("{1: None}".to_owned()));
}

#[test]
fn dictionaries_compare() {
    let mut a = PyDictRef::new(dict_of(&[("a", 1), ("b", 2)]));
    let mut b = PyDictRef::new(dict_of(&[("b", 2), ("a", 1)]));
    let mut c = PyDictRef::new(dict_of(&[("a", 1), ("b", 3)]));
    let mut small = PyDictRef::new(dict_of(&[("a", 1)]));
    let yes = PyComparisonValue::Implemented(true);
    let no = PyComparisonValue::Implemented(false);
    assert_eq!(PyDict::cmp(&mut a, &mut b, PyComparisonOp::Eq).ok(), Some(yes));
    assert_eq!(PyDict::cmp(&mut a, &mut b, PyComparisonOp::Ne).ok(), Some(no));
    assert_eq!(PyDict::cmp(&mut a, &mut c, PyComparisonOp::Eq).ok(), Some(no));
    assert_eq!(PyDict::cmp(&mut a, &mut c, PyComparisonOp::Ne).ok(), Some(yes));
    assert_eq!(PyDict::cmp(&mut a, &mut small, PyComparisonOp::Eq).ok(), Some(no));
    for op in [PyComparisonOp::Lt, PyComparisonOp::Le, PyComparisonOp::Gt, PyComparisonOp::Ge] {
        assert_eq!(
            PyDict::cmp(&mut a, &mut b, op).ok(),
            Some(PyComparisonValue::NotImplemented)
        );
    }
    assert!(matches!(PyDict::inner_cmp(&mut a, &mut c, PyComparisonOp::Eq, false), Ok(true)));
    assert!(matches!(PyDict::inner_cmp(&mut small, &mut a, PyComparisonOp::Lt, true), Ok(true)));
    assert!(matches!(PyDict::inner_cmp(&mut small, &mut a, PyComparisonOp::Le, true), Ok(true)));
    assert!(matches!(PyDict::inner_cmp(&mut a, &mut small, PyComparisonOp::Gt, true), Ok(true)));
    assert!(matches!(PyDict::inner_cmp(&mut a, &mut small, PyComparisonOp::Ge, true), Ok(true)));
    assert!(matches!(PyDict::inner_cmp(&mut a, &mut small, PyComparisonOp::Lt, true), Ok(false)));
    assert!(matches!(PyDict::inner_cmp(&mut a, &mut small, PyComparisonOp::Ne, true), Ok(true)));
    assert!(matches!(PyDict::inner_cmp(&mut a, &mut b, PyComparisonOp::Ne, true), Ok(false)));
    let mut other_keys = PyDictRef::new(dict_of(&[("x", 1), ("y", 2)]));
    assert_eq!(PyDict::cmp(&mut a, &mut other_keys, PyComparisonOp::Eq).ok(), Some(no));
    let keys = a.as_dict().keys();
    let values = a.as_dict().values();
    let items = a.as_dict().items();
    assert_eq!(keys.cmp(&mut a, &keys, &mut c, PyComparisonOp::Eq).ok(), Some(yes));
    assert_eq!(items.cmp(&mut a, &items, &mut c, PyComparisonOp::Eq).ok(), Some(no));
    assert_eq!(values.cmp(&mut a, &values, &mut b, PyComparisonOp::Eq).ok(), Some(yes));
    assert_eq!(keys.cmp(&mut small, &keys, &mut a, PyComparisonOp::Lt).ok(), Some(yes));
    assert_eq!(keys.cmp(&mut a, &keys, &mut small, PyComparisonOp::Le).ok(), Some(no));
    assert_eq!(
        keys.cmp(&mut a, &items, &mut b, PyComparisonOp::Eq).ok(),
        Some(PyComparisonValue::NotImplemented)
    );
    let nothing = into_pyobject::<PyBuiltin>(None);
    let same = nothing.clone();
    let another = into_pyobject::<PyBuiltin>(None);
    assert_eq!(PyNone::cmp(&nothing, &same, PyComparisonOp::Eq), yes);
    assert_eq!(PyNone::cmp(&nothing, &another, PyComparisonOp::Eq), no);
    assert_eq!(PyNone::cmp(&nothing, &another, PyComparisonOp::Ne), yes);
    assert_eq!(
        PyNone::cmp(&nothing, &same, PyComparisonOp::Lt),
        PyComparisonValue::NotImplemented
    );
    assert!(PyComparisonOp::Le.eval_len(2, 2));
    assert!(!PyComparisonOp::Lt.eval_len(2, 2));
}

#[test]
fn builtin_objects_hash_and_print() {
    assert_eq!(PyBuiltin::Int(42).hash().ok(), Some(42));
    assert_eq!(PyBuiltin::Int(-1).hash().ok(), Some(-1));
    assert_eq!(PyBuiltin::Nil(PyNone).hash().ok(), Some(NONE_HASH));
    assert_eq!(PyBuiltin::Str("foobar".to_owned()).hash().ok(), Some(hash_str("foobar")));
    assert_eq!(hash_str(""), -3750763034362895579);
    assert_eq!(hash_str("a"), -5808556873153909620);
    assert_eq!(hash_str("foobar"), -8821353812377114648);
    assert_eq!(hash_str("\u{e9}"), 775207407765167617);
    assert_eq!(nat_to_string(0), "0");
    assert_eq!(nat_to_string(1234567890), "1234567890");
    assert_eq!(nat_to_string(u64::MAX), "18446744073709551615");
    assert_eq!(int_to_string(-7), "-7");
    assert_eq!(int_to_string(i64::MIN), "-9223372036854775808");
    assert_eq!(int_to_string(i64::MAX), "9223372036854775807");
    assert_eq!(PyBuiltin::Str("it".to_owned()).repr().ok(), Some("'it'".to_owned()));
    assert_eq!(PyNone::tp_new().repr(), "None");
    assert!(!PyNone.bool());
    assert!(PyBuiltin::Int(3).same_key(&PyBuiltin::Int(3)));
    assert!(!PyBuiltin::Int(3).same_key(&PyBuiltin::Str("3".to_owned())));
    assert!(PyBuiltin::none().same_key(&PyBuiltin::Nil(PyNone)));
    assert!(!PyBuiltin::Int(0).key_error());
    assert_eq!(PyBuiltin::new_str("x").as_text(), Some("x"));
    assert_eq!(PyBuiltin::Int(1).as_text(), None);
    assert_eq!(PyBuiltin::Int(1).value_eq(&PyBuiltin::Int(1)).ok(), Some(true));
}

#[test]
fn native_text_and_text_objects_are_one_key() {
    let mut d: PyDict<PyBuiltin> = PyDict::new();
    assert!(d.setitem(text("a"), num(1)).is_ok());
    assert!(d.contains_key("a"));
    assert!(d.contains_key("a".to_owned()));
    assert!(!d.contains_key("b"));
    assert!(d.setitem("a".to_owned(), num(2)).is_ok());
    assert_eq!(d.len(), 1);
    assert_eq!(d.getitem(text("a")).ok().map(|v| as_num(&v)), Some(2));
    assert!(!d.contains_key(num(0)));
    let stored: Object = "k".into_pyobject();
    assert_eq!(as_text(&stored), "k");
    let stored: Object = "s".to_owned().into_pyobject();
    assert_eq!(as_text(&stored), "s");
    assert_eq!(DictKey::<PyBuiltin>::key_hash(&"a").ok(), Some(hash_str("a")));
    assert!(!DictKey::<PyBuiltin>::key_is(&"a", &text("a")));
}

#[test]
fn copy_is_independent_but_shares_objects() {
    let mut d: PyDict<PyBuiltin> = PyDict::new();
    let value = num(1);
    assert!(d.setitem("a", value.clone()).is_ok());
    let mut e = d.copy();
    assert_eq!(e.size(), d.size());
    assert!(e.setitem("b", num(2)).is_ok());
    assert!(e.delitem("a").is_ok());
    assert_eq!(pairs_of(&d), owned(&[("a", 1)]));
    assert_eq!(pairs_of(&e), owned(&[("b", 2)]));
    let f = d.copy();
    let through_copy = f.nth_live(0).map(|(_, v)| v);
    assert!(matches!(through_copy, Some(v) if v.is(&value)));
    assert_eq!(PyObjectRc::strong_count(&value), 3);
}

#[test]
fn a_missing_key_error_is_a_lookup_that_found_nothing() {
    let found: Result<Option<Object>, DictError<PyBuiltin>> = Ok(Some(num(1)));
    assert!(matches!(missing_if_key_error(found), Ok(Some(_))));
    let raised: Result<Option<Object>, DictError<PyBuiltin>> = Err(DictError::Raised(num(1)));
    assert!(matches!(missing_if_key_error(raised), Err(DictError::Raised(_))));
    let missing: Result<Option<Object>, DictError<PyBuiltin>> = Err(DictError::KeyNotFound(num(1)));
    assert!(matches!(missing_if_key_error(missing), Ok(None)));
    let other: Result<Option<Object>, DictError<PyBuiltin>> = Err(DictError::EmptyCollectionOnPop);
    assert!(matches!(missing_if_key_error(other), Err(DictError::EmptyCollectionOnPop)));
}

#[test]
fn hashed_text_is_the_key_of_its_text() {
    let key = HashedStr::new("name".to_owned());
    assert_eq!(key.as_str(), "name");
    assert_eq!(key.hash(), hash_str("name"));
    assert_eq!(DictKey::<PyBuiltin>::key_hash(&key).ok(), Some(hash_str("name")));
    let mut d: Dict<PyBuiltin> = Dict::default();
    assert!(d.insert("name", num(1)).is_ok());
    assert_eq!(d.get(&key).ok().flatten().map(|v| as_num(&v)), Some(1));
    assert!(matches!(d.contains(&HashedStr::new("other".to_owned())), Ok(false)));
    assert!(d.insert(HashedStr::new("more".to_owned()), num(2)).is_ok());
    assert_eq!(d.get(&"more").ok().flatten().map(|v| as_num(&v)), Some(2));
    assert!(d.delete(key).is_ok());
    assert_eq!(d.len(), 1);
}

#[test]
fn a_cloned_map_has_the_same_log_and_numbers() {
    let mut d: Dict<PyBuiltin> = Dict::new();
    for i in 0..7 {
        assert!(d.insert(num(i), num(i * 10)).is_ok());
    }
    assert!(d.delete(num(3)).is_ok());
    let mut e = d.clone();
    assert_eq!(e.size(), d.size());
    assert!(!e.has_structurally_changed(&d.size()));
    let keys: Vec<i64> = e.keys().iter().map(as_num).collect();
    assert_eq!(keys, vec![0, 1, 2, 4, 5, 6]);
    assert!(e.insert(num(3), num(0)).is_ok());
    assert!(e.has_structurally_changed(&d.size()));
    assert!(matches!(d.contains(&num(3)), Ok(false)));
    assert_eq!(e.pop(&num(0)).ok().flatten().map(|v| as_num(&v)), Some(0));
    assert_eq!(d.get(&num(0)).ok().flatten().map(|v| as_num(&v)), Some(0));
}
