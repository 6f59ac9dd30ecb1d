use barus::lock::TryLock;

#[test]
fn test_try_lock() {
    let lock = TryLock::new();
    assert!(lock.try_lock());
    assert!(!lock.try_lock());
    lock.unlock();
    assert!(lock.try_lock());
}

#[test]
fn test_try_lock_guard() {
    let lock = TryLock::new();
    assert!(lock.try_lock_guard().is_some());

    {
        let _guard = lock.try_lock_guard();
        assert!(lock.try_lock_guard().is_none());
    }
    assert!(lock.try_lock_guard().is_some());
}

#[test]
fn the_lock_is_got_exactly_when_the_flag_was_not_set() {
    assert!(TryLock::got(false));
    assert!(!TryLock::got(true));
    let lock = TryLock::new();
    let other = lock.clone();
    assert!(lock.try_lock_guard().is_some());
    {
        let _held = other.try_lock_guard().unwrap();
        assert!(lock.try_lock_guard().is_none());
        assert!(!lock.try_lock());
    }
    assert!(lock.try_lock());
}
