use punto_rs::session::{
    allowed_session, confirmed_session, relevant_change, SessionGuard, SNAPSHOT_VALID_MS,
};

#[test]
fn only_known_unlocked_local_graphical_user_session_is_allowed() {
    assert!(allowed_session(
        Some("wayland"),
        Some("user"),
        Some("GNOME"),
        Some(1),
        Some(0),
        Some(0)
    ));
    assert!(allowed_session(
        Some("x11"),
        Some("user"),
        Some("GNOME"),
        Some(1),
        Some(0),
        Some(0)
    ));
    for tuple in [
        (Some("tty"), Some("user"), Some(1), Some(0), Some(0)),
        (Some("wayland"), Some("greeter"), Some(1), Some(0), Some(0)),
        (Some("wayland"), Some("user"), Some(0), Some(0), Some(0)),
        (Some("wayland"), Some("user"), Some(1), Some(1), Some(0)),
        (Some("wayland"), Some("user"), Some(1), None, Some(0)),
        (Some("wayland"), Some("user"), Some(1), Some(0), Some(1)),
    ] {
        assert!(!allowed_session(
            tuple.0,
            tuple.1,
            Some("KDE"),
            tuple.2,
            tuple.3,
            tuple.4
        ));
    }
}

#[test]
fn cosmic_cannot_rely_on_an_unlocked_logind_hint() {
    for desktop in ["COSMIC", "cosmic", "COSMIC:Wayland", "test:Cosmic"] {
        assert!(!allowed_session(
            Some("wayland"),
            Some("user"),
            Some(desktop),
            Some(1),
            Some(0),
            Some(0)
        ));
    }
    for desktop in ["GNOME", "KDE", "GNOME:GNOME"] {
        assert!(allowed_session(
            Some("wayland"),
            Some("user"),
            Some(desktop),
            Some(1),
            Some(0),
            Some(0)
        ));
    }
}

#[test]
fn stale_logind_snapshot_disables_correction() {
    let mut guard = SessionGuard::new(true);
    guard.set(Some("a".into()), 0);
    let before = guard.context(0).generation;
    assert!(guard.context(SNAPSHOT_VALID_MS).session.is_none());
    assert_ne!(guard.context(SNAPSHOT_VALID_MS).generation, before);
}

#[test]
fn session_generations_invalidate_queued_input() {
    let mut guard = SessionGuard::new(true);
    assert!(guard.context(0).session.is_none());
    guard.set(Some("a".into()), 0);
    let before = guard.context(0).generation;
    guard.set(Some("a".into()), 0);
    assert_eq!(guard.context(0).generation, before);
    guard.invalidate();
    guard.set(Some("a".into()), 0);
    assert_ne!(guard.context(0).generation, before);
}

#[test]
fn unguarded_session_is_always_available() {
    let mut guard = SessionGuard::new(false);
    let ctx = guard.context(1_000_000);
    assert_eq!(ctx.session.as_deref(), Some("unguarded"));
    assert_eq!(ctx.generation, 0);
}

#[test]
fn fresh_snapshot_stays_valid_until_its_deadline() {
    let mut guard = SessionGuard::new(true);
    guard.set(Some("s".into()), 100);
    assert_eq!(guard.generation(), 1);
    assert_eq!(guard.context(100 + SNAPSHOT_VALID_MS - 1).session.as_deref(), Some("s"));
    assert_eq!(guard.context(100 + SNAPSHOT_VALID_MS).session, None);
    assert_eq!(guard.generation(), 2);
    // Asking again does not start yet another generation.
    assert_eq!(guard.context(100 + 2 * SNAPSHOT_VALID_MS).generation, 2);
}

#[test]
fn confirmed_session_needs_permission_and_same_id() {
    assert_eq!(confirmed_session("c2".into(), true, "c2"), Some("c2".to_string()));
    assert_eq!(confirmed_session("c2".into(), false, "c2"), None);
    assert_eq!(confirmed_session("c2".into(), true, "c3"), None);
}

#[test]
fn only_watched_logind_properties_call_for_a_snapshot() {
    let names = |list: &[&str]| list.iter().map(|s| s.to_string()).collect::<Vec<String>>();
    let none: Vec<String> = Vec::new();
    assert!(relevant_change(
        "org.freedesktop.login1.Session",
        &names(&["LockedHint"]),
        &none
    ));
    assert!(relevant_change(
        "org.freedesktop.login1.Seat",
        &none,
        &names(&["ActiveSession"])
    ));
    assert!(!relevant_change(
        "org.freedesktop.login1.Session",
        &names(&["IdleHint", "Name"]),
        &none
    ));
    assert!(!relevant_change(
        "org.freedesktop.NetworkManager",
        &names(&["State"]),
        &none
    ));
    assert!(!relevant_change("org.freedesktop.login", &names(&["Active"]), &none));
}
