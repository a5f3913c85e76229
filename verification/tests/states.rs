use goap::WorldState;

#[test]
fn missing_key_never_matches() {
    let state = WorldState::new();
    let mut partial = WorldState::new();
    partial.set(3, true);
    assert!(!state.matches(&partial));
    assert_eq!(state.get(3), None);
}

#[test]
fn absence_is_not_false() {
    let state = WorldState::new();
    let mut partial = WorldState::new();
    partial.set(3, false);
    // The state leaves key 3 unconstrained, so even "3 = false" is unmet.
    assert!(!state.matches(&partial));
}

#[test]
fn matches_needs_exact_values() {
    let mut state = WorldState::new();
    state.set(1, true);
    state.set(2, false);
    let mut partial = WorldState::new();
    partial.set(1, true);
    assert!(state.matches(&partial));
    partial.set(2, true);
    assert!(!state.matches(&partial));
}

#[test]
fn every_state_matches_empty_partial() {
    let mut state = WorldState::new();
    state.set(5, false);
    assert!(state.matches(&WorldState::new()));
}

#[test]
fn insertion_order_does_not_matter() {
    let mut a = WorldState::new();
    a.set(2, true);
    a.set(1, false);
    a.set(9, true);
    let mut b = WorldState::new();
    b.set(9, true);
    b.set(1, false);
    b.set(2, true);
    assert!(a.equals(&b));
    assert!(b.equals(&a));
}

#[test]
fn overwriting_changes_equality() {
    let mut a = WorldState::new();
    a.set(1, true);
    let mut b = WorldState::new();
    b.set(1, true);
    assert!(a.equals(&b));
    b.set(1, false);
    assert!(!a.equals(&b));
}

#[test]
fn entries_come_out_sorted() {
    let mut a = WorldState::new();
    a.set(7, true);
    a.set(3, false);
    a.set(5, true);
    assert_eq!(a.entry_count(), 3);
    assert_eq!(a.entry_at(0), (3, false));
    assert_eq!(a.entry_at(1), (5, true));
    assert_eq!(a.entry_at(2), (7, true));
}

#[test]
fn apply_overwrites_and_extends() {
    let mut s = WorldState::new();
    s.set(1, true);
    s.set(2, true);
    let mut e = WorldState::new();
    e.set(2, false);
    e.set(3, true);
    let r = s.apply(&e);
    assert_eq!(r.get(1), Some(true));
    assert_eq!(r.get(2), Some(false));
    assert_eq!(r.get(3), Some(true));
    // The source state is untouched.
    assert_eq!(s.get(2), Some(true));
    assert_eq!(s.get(3), None);
}
