//! The lifecycle of a resource, and the sample that counts.
use hazard_scan::resource::{Event, ExitKind, ResourceKind, ResourceState};
use hazard_scan::samples::worker;

#[test]
fn the_lifecycle_of_a_resource() {
    let unknown = ResourceState::Unknown;
    let held = unknown.after(Event::Acquire);
    assert_eq!(held, ResourceState::Acquired);
    assert_eq!(held.after(Event::Resolve), ResourceState::Released);
    assert_eq!(held.after(Event::Exit), ResourceState::Leaked);
    assert_eq!(held.after(Event::Acquire), ResourceState::Acquired);
    // Only what is held can be resolved or leaked.
    for state in [ResourceState::Released, ResourceState::Leaked, ResourceState::Unknown] {
        assert_eq!(state.after(Event::Resolve), state);
        assert_eq!(state.after(Event::Exit), state);
        assert_eq!(state.after(Event::Acquire), ResourceState::Acquired);
        assert!(!state.is_held());
    }
    assert!(held.is_held());
}

#[test]
fn what_is_owed_at_which_exit() {
    let exits = [ExitKind::Return, ExitKind::Panic, ExitKind::Break, ExitKind::Continue];
    assert_eq!(exits.map(|e| ResourceKind::Lock.owed_at(e)), [false, true, false, false]);
    assert_eq!(exits.map(|e| ResourceKind::SpawnedTask.owed_at(e)), [true, true, false, false]);
    assert_eq!(exits.map(|e| ResourceKind::Optional.owed_at(e)), [false, false, false, false]);
    assert!(ResourceKind::Lock.scoped());
    assert!(ResourceKind::Optional.scoped());
    assert!(!ResourceKind::SpawnedTask.scoped());
}

#[test]
fn the_worker_counts_itself() {
    let mut counter = 41;
    worker(&mut counter);
    assert_eq!(counter, 42);
    let mut counter = 0;
    for _ in 0..4 {
        worker(&mut counter);
    }
    assert_eq!(counter, 4);
    let mut counter = u32::MAX - 1;
    worker(&mut counter);
    assert_eq!(counter, u32::MAX);
}
