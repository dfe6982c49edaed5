use byteserver::lock::LockManager;
use byteserver::util::{p64, Oid};

fn oids(v: Vec<u64>) -> Vec<Oid> {
    v.iter().map(|i| p64(*i)).collect()
}

#[test]
fn lock_works() {
    let mut lm = LockManager::new();

    assert!(lm.lock(p64(1), oids(vec![1, 2, 3])));

    assert!(!lm.lock(p64(2), oids(vec![1, 2])));
    assert!(!lm.lock(p64(3), oids(vec![1, 2])));
    assert!(!lm.lock(p64(4), oids(vec![3])));

    assert!(lm.lock(p64(5), oids(vec![4])));

    let granted = lm.release(&p64(1));
    assert!(granted.contains(&p64(2)));
    assert!(!granted.contains(&p64(3)));
    assert!(granted.contains(&p64(4)));

    let granted = lm.release(&p64(2));
    assert_eq!(granted, vec![p64(3)]);
}

#[test]
fn waiters_are_served_first_come_first() {
    let mut lm = LockManager::new();
    assert!(lm.lock(p64(10), oids(vec![7])));
    assert!(!lm.lock(p64(11), oids(vec![7])));
    assert!(!lm.lock(p64(12), oids(vec![7])));
    assert_eq!(lm.release(&p64(10)), vec![p64(11)]);
    assert_eq!(lm.release(&p64(11)), vec![p64(12)]);
    assert_eq!(lm.release(&p64(12)), Vec::<[u8; 8]>::new());
}

#[test]
fn releasing_unknown_transaction_does_nothing() {
    let mut lm = LockManager::new();
    assert!(lm.lock(p64(1), oids(vec![1])));
    assert!(lm.release(&p64(9)).is_empty());
    assert!(!lm.lock(p64(2), oids(vec![1])));
}

#[test]
fn release_frees_objects_nobody_waits_on() {
    let mut lm = LockManager::new();
    assert!(lm.lock(p64(1), oids(vec![1, 2])));
    assert!(lm.release(&p64(1)).is_empty());
    // Both objects are free again.
    assert!(lm.lock(p64(2), oids(vec![2])));
    assert!(lm.lock(p64(3), oids(vec![1])));
}
