use offline_store::cancel::UploadState;

#[test]
fn register_then_cancel_returns_true() {
    let mut u = UploadState::new();
    u.register("t1");
    assert!(!u.is_cancelled("t1"));
    assert!(u.cancel("t1"));
    assert!(u.is_cancelled("t1"));
}

#[test]
fn cancel_after_remove_returns_false() {
    let mut u = UploadState::new();
    u.register("t1");
    u.remove("t1");
    assert!(!u.cancel("t1"));
    assert!(!u.is_cancelled("t1"));
}

#[test]
fn cancel_unknown_id_returns_false() {
    let mut u = UploadState::new();
    assert!(!u.cancel("never-registered"));
}

#[test]
fn re_register_resets_the_flag() {
    let mut u = UploadState::new();
    u.register("t1");
    assert!(u.cancel("t1"));
    u.register("t1"); // last registration wins: a fresh, unset flag
    assert!(!u.is_cancelled("t1"));
}

#[test]
fn remove_is_idempotent_and_scoped() {
    let mut u = UploadState::new();
    u.register("a");
    u.register("b");
    u.remove("a");
    u.remove("a"); // no-op
    assert!(!u.cancel("a"));
    assert!(u.cancel("b"));
}
