use containers::arc::{clone_must_abort, drop_must_release};

#[test]
fn a_clone_aborts_only_at_the_limit() {
    let limit = isize::MAX as usize;
    assert!(!clone_must_abort(0));
    assert!(!clone_must_abort(1));
    assert!(!clone_must_abort(limit - 1));
    assert!(clone_must_abort(limit));
    assert!(clone_must_abort(limit + 1));
    assert!(clone_must_abort(usize::MAX));
}

#[test]
fn only_the_last_owner_releases() {
    assert!(drop_must_release(1));
    assert!(!drop_must_release(2));
    assert!(!drop_must_release(3));
    assert!(!drop_must_release(usize::MAX));
    assert!(!drop_must_release(0));
}
