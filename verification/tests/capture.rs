use steno_core::capture::{settle, status_of, Backend, Policy, Status};

fn policy_with(keys: &[&str]) -> Policy {
    let mut p = Policy::new();
    p.set_keys(keys.iter().map(|k| k.to_string()).collect());
    p
}

#[test]
fn nothing_is_consumed_while_inactive() {
    let p = policy_with(&["KeyS"]);
    assert!(!p.consumes("KeyS"));
}

#[test]
fn active_policy_consumes_only_its_own_keys() {
    let mut p = policy_with(&["KeyS", "KeyT"]);
    p.set_active(true);
    assert!(p.consumes("KeyS"));
    assert!(p.consumes("KeyT"));
    assert!(!p.consumes("KeyZ"));
}

#[test]
fn control_keys_always_pass_through() {
    let mut p = policy_with(&["KeyS"]);
    p.set_active(true);
    for key in ["Escape", "Tab", "ControlLeft", "Alt", "MetaLeft", "F4"] {
        assert!(!p.consumes(key), "{key} must never be consumed");
    }
}

#[test]
fn deactivating_releases_every_key() {
    let mut p = policy_with(&["KeyS"]);
    p.set_active(true);
    assert!(p.consumes("KeyS"));
    p.set_active(false);
    assert!(!p.consumes("KeyS"));
}

#[test]
fn changing_pack_changes_what_is_consumed() {
    let mut p = policy_with(&["KeyS"]);
    p.set_active(true);
    assert!(p.consumes("KeyS"));
    p.set_keys(["KeyQ".to_string()].into_iter().collect());
    assert!(!p.consumes("KeyS"));
    assert!(p.consumes("KeyQ"));
}

#[test]
fn an_empty_policy_consumes_nothing() {
    let mut p = Policy::new();
    p.set_active(true);
    assert!(!p.consumes("KeyS"));
}

#[test]
fn a_default_policy_is_inactive() {
    let p = Policy::default();
    assert!(!p.is_active());
    assert!(!p.consumes("KeyS"));
}

#[test]
fn a_refused_grab_falls_back_to_observing() {
    let (b, note) = settle(Backend::Starting, Some("no permission".to_string()), false);
    assert_eq!(b, Backend::Observing);
    assert_eq!(note.as_deref(), Some("no permission"));
    assert_eq!(status_of(b, note.as_deref()), Status::Observing("no permission".to_string()));
}

#[test]
fn a_silent_grab_is_trusted_only_after_the_grace_period() {
    assert_eq!(settle(Backend::Starting, None, false), (Backend::Starting, None));
    assert_eq!(settle(Backend::Starting, None, true), (Backend::Suppressing, None));
    assert_eq!(status_of(Backend::Starting, None), Status::NotStarted);
    assert_eq!(status_of(Backend::Suppressing, None), Status::Suppressing);
}

#[test]
fn a_settled_backend_stays_put() {
    assert_eq!(settle(Backend::Suppressing, Some("late".to_string()), true), (Backend::Suppressing, None));
    assert_eq!(settle(Backend::Observing, None, true), (Backend::Observing, None));
    assert_eq!(status_of(Backend::Observing, None), Status::Observing("suppression unavailable".to_string()));
}
