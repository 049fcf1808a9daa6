use std::sync::RwLock;

use simple_tcp::unchecked_read_write_lock::{LockUnavailable, UncheckedRwLock};

#[test]
fn read_and_write_through_the_lock() {
    let lock = UncheckedRwLock::new(RwLock::new(5));
    assert_eq!(*lock.read().unwrap(), 5);
    *lock.write().unwrap() += 2;
    assert_eq!(*lock.read().unwrap(), 7);
    let inner = lock.into_read_write_lock();
    assert_eq!(*inner.read().unwrap(), 7);
}

#[test]
fn borrowed_lock_is_the_same() {
    let lock = UncheckedRwLock::new(RwLock::new(String::from("a")));
    lock.as_read_write_lock().write().unwrap().push('b');
    assert_eq!(*lock.read().unwrap(), "ab");
}

#[test]
fn busy_lock_is_not_entered() {
    let lock = UncheckedRwLock::new(RwLock::new(1));
    let reader = lock.read().unwrap();
    assert_eq!(lock.write().err(), Some(LockUnavailable::Busy));
    assert_eq!(*lock.read().unwrap(), 1);
    drop(reader);
    let writer = lock.write().unwrap();
    assert_eq!(lock.read().err(), Some(LockUnavailable::Busy));
    assert_eq!(lock.write().err(), Some(LockUnavailable::Busy));
    drop(writer);
    assert!(lock.write().is_ok());
}
