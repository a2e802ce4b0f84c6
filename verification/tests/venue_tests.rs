use lib::venue::{VenueState, MAX_TRAITS};

#[test]
fn new_venue_is_blank() {
    let v = VenueState::new(3, "Solo");
    assert_eq!(v.id, 3);
    assert_eq!(v.name, "Solo");
    assert_eq!(v.event_count, 0);
    assert!(v.personality.is_empty());
    assert!(!v.contrarian);
    assert!(v.alive);
}

#[test]
fn calm_event_only_counts() {
    let mut v = VenueState::new(0, "Solo");
    v.record_event(false);
    v.record_event(false);
    assert_eq!(v.event_count, 2);
    assert!(v.personality.is_empty());
}

#[test]
fn shock_leaves_a_trait() {
    let mut v = VenueState::new(0, "Quantum Bar");
    v.record_event(false);
    v.record_event(true);
    assert_eq!(v.personality, vec!["Quantum Bar-shocked-2".to_string()]);
}

#[test]
fn personality_keeps_the_last_ten() {
    let mut v = VenueState::new(0, "Solo");
    for _ in 0..25 {
        v.record_event(true);
    }
    assert_eq!(v.personality.len(), MAX_TRAITS);
    assert_eq!(v.personality[0], "Solo-shocked-16");
    assert_eq!(v.personality[9], "Solo-shocked-25");
}

#[test]
fn dead_venue_ignores_events() {
    let mut v = VenueState::new(0, "Solo");
    v.alive = false;
    v.record_event(true);
    assert_eq!(v.event_count, 0);
    assert!(v.personality.is_empty());
}

#[test]
fn trait_numbers_are_decimal() {
    let mut v = VenueState::new(0, "");
    for _ in 0..9 {
        v.record_event(false);
    }
    v.record_event(true);
    for _ in 0..89 {
        v.record_event(false);
    }
    v.record_event(true);
    assert_eq!(v.personality, vec!["-shocked-10".to_string(), "-shocked-100".to_string()]);
}
