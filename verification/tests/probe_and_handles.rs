use pydict::probe::{GenIndexes, PERTURB_STEPS};
use pydict::pyobjectrc::PyObjectRc;
use std::rc::Rc;

fn walk(hash: u64, cap: usize, steps: usize) -> Vec<usize> {
    let mut g = GenIndexes::new(hash, cap);
    let mut out = Vec::new();
    for _ in 0..steps {
        out.push(g.slot());
        g.advance();
    }
    out
}

#[test]
fn probe_sequence_follows_the_recurrence() {
    assert_eq!(walk(0, 8, 9), vec![0, 1, 6, 7, 4, 5, 2, 3, 0]);
    assert_eq!(walk(100, 8, 6), vec![4, 1, 1, 6, 7, 4]);
    assert_eq!(walk(u64::MAX, 16, 5), vec![15, 11, 7, 3, 15]);
    assert_eq!(
        walk(12345678901234567890, 8, 16),
        vec![2, 5, 0, 3, 6, 0, 6, 2, 4, 6, 4, 2, 1, 0, 1, 6]
    );
}

#[test]
fn probe_sequence_visits_every_slot() {
    for cap in [8usize, 16, 64, 1024] {
        for hash in [0u64, 1, 7, 12345, u64::MAX, 0x8000_0000_0000_0000] {
            let slots = walk(hash, cap, PERTURB_STEPS + cap);
            let mut seen = vec![false; cap];
            for s in slots {
                assert!(s < cap);
                seen[s] = true;
            }
            assert!(seen.iter().all(|b| *b));
        }
    }
}

#[test]
fn strong_count_counts_owners() {
    let a = PyObjectRc::new(5i64);
    assert_eq!(PyObjectRc::strong_count(&a), 1);
    let b = a.clone();
    assert_eq!(PyObjectRc::strong_count(&a), 2);
    assert_eq!(*b.as_ref(), 5);
    drop(b);
    assert_eq!(PyObjectRc::strong_count(&a), 1);
}

#[test]
fn identity_is_not_equality() {
    let a = PyObjectRc::new("x".to_owned());
    let b = PyObjectRc::new("x".to_owned());
    let c = a.clone();
    assert!(a.is(&c));
    assert!(!a.is(&b));
    assert_eq!(a.as_ref(), b.as_ref());
}

#[test]
fn weak_handles_do_not_keep_alive() {
    let a = PyObjectRc::new(7u8);
    assert_eq!(PyObjectRc::weak_count(&a), 0);
    let w = PyObjectRc::downgrade(&a);
    let w2 = w.clone();
    assert_eq!(PyObjectRc::weak_count(&a), 2);
    assert_eq!(PyObjectRc::strong_count(&a), 1);
    let up = PyObjectRc::upgrade_weak(&w);
    match &up {
        Some(strong) => {
            assert!(strong.is(&a));
            assert_eq!(*strong.as_ref(), 7);
        }
        None => panic!("the object is alive"),
    }
    assert_eq!(PyObjectRc::strong_count(&a), 2);
    drop(up);
    drop(a);
    assert!(PyObjectRc::upgrade_weak(&w).is_none());
    assert!(PyObjectRc::upgrade_weak(&w2).is_none());
}

#[test]
fn handles_convert_to_and_from_rc() {
    let rc = Rc::new(3i32);
    let keep = rc.clone();
    let handle = PyObjectRc::from_rc(rc);
    assert_eq!(PyObjectRc::strong_count(&handle), 2);
    let back = handle.into_rc();
    assert!(Rc::ptr_eq(&back, &keep));
}
