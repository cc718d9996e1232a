use pce::genslots::GenSlots;

#[test]
fn push_live_returns_slot_and_marks_present() {
    let mut s = GenSlots::new();
    assert_eq!(s.push_live(0), 0);
    assert_eq!(s.push_live(0), 1);
    assert_eq!(s.len(), 2);
    assert!(s.is_live(0) && s.is_live(1));
    assert!(s.matches(0, 0) && s.matches(1, 0));
}

#[test]
fn matches_enforces_generation_and_bounds() {
    let mut s = GenSlots::new();
    s.push_live(7);
    assert!(s.matches(0, 7));
    assert!(!s.matches(0, 6), "another generation does not match");
    assert!(!s.matches(1, 7), "out of range does not match");
}

#[test]
fn kill_clears_presence_but_keeps_slot() {
    let mut s = GenSlots::new();
    s.push_live(3);
    s.kill(0);
    assert_eq!(s.len(), 1, "the slot stays");
    assert!(!s.is_live(0));
    assert!(!s.matches(0, 3), "a freed slot matches no generation");
}

#[test]
fn activate_reoccupies_hole_with_new_generation() {
    let mut s = GenSlots::new();
    s.push_live(0);
    s.kill(0);
    s.activate(0, 1);
    assert!(s.matches(0, 1));
    assert!(!s.matches(0, 0), "the old generation is out of reach");
}

#[test]
fn grow_to_adds_vacant_slots_idempotently() {
    let mut s = GenSlots::new();
    s.grow_to(3);
    assert_eq!(s.len(), 3);
    assert!(!s.is_live(0) && !s.is_live(2), "new slots are empty");
    s.grow_to(2);
    assert_eq!(s.len(), 3);
}

#[test]
fn swap_remove_compacts_last_into_hole() {
    let mut s = GenSlots::new();
    s.push_live(10);
    s.push_live(11);
    s.push_live(12);
    s.swap_remove(0);
    assert_eq!(s.len(), 2);
    assert_eq!(s.generation(0), 12);
    assert!(s.matches(0, 12) && s.matches(1, 11));
}

#[test]
fn for_each_live_visits_only_present_slots() {
    let mut s = GenSlots::new();
    s.push_live(0);
    s.push_live(0);
    s.push_live(0);
    s.kill(1);
    let mut seen = vec![];
    for (slot, g) in s.live_slots() {
        seen.push((slot, g));
    }
    assert_eq!(seen, vec![(0, 0), (2, 0)], "the freed slot is skipped");
}
