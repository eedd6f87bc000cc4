//! Registry lifecycle: diffing declared sets across cycles.

use subscriptions::registry::{collapse, Registry};
use subscriptions::subscription::Recipe;
use subscriptions::time::every;

fn timer(nanos: u64) -> Recipe {
    Recipe::PeriodicTimer {
        interval_nanos: nanos,
    }
}

/// Runs one declaration cycle against the registry, handing out handles
/// counted up from `next_handle`, and returns the cancelled handles.
fn run_cycle(reg: &mut Registry<u32>, declared: &[Recipe], next_handle: &mut u32) -> Vec<u32> {
    let declared: Vec<Recipe> = collapse(&declared.to_vec());
    let to_start = reg.to_start(&declared);
    let cancelled = reg.retain_declared(&declared);
    for recipe in to_start {
        let handle = *next_handle;
        *next_handle += 1;
        reg.activate(recipe.identity_hash(), handle);
    }
    cancelled
}

#[test]
fn same_identity_two_cycles_instantiates_once() {
    let mut reg: Registry<u32> = Registry::new();
    let mut next: u32 = 0;
    let declared = [timer(100)];

    let cancelled = run_cycle(&mut reg, &declared, &mut next);
    assert_eq!(cancelled.len(), 0);
    // one instantiation happened
    assert_eq!(next, 1);
    assert!(reg.is_active(&timer(100).identity_hash()));

    let cancelled = run_cycle(&mut reg, &declared, &mut next);
    assert_eq!(cancelled.len(), 0);
    // no second instantiation for the same identity
    assert_eq!(next, 1);
    assert!(reg.is_active(&timer(100).identity_hash()));
}

#[test]
fn duplicate_declarations_collapse_to_one() {
    let mut reg: Registry<u32> = Registry::new();
    let mut next: u32 = 0;
    let declared = [timer(100), timer(100), timer(100)];

    let cancelled = run_cycle(&mut reg, &declared, &mut next);
    assert_eq!(cancelled.len(), 0);
    assert_eq!(next, 1);
}

#[test]
fn removed_identity_is_cancelled() {
    let mut reg: Registry<u32> = Registry::new();
    let mut next: u32 = 0;

    let cancelled = run_cycle(&mut reg, &[timer(50), timer(200)], &mut next);
    assert_eq!(cancelled.len(), 0);
    assert_eq!(next, 2);

    // drop the 50ns timer: its handle (0) comes back for cancellation
    let cancelled = run_cycle(&mut reg, &[timer(200)], &mut next);
    assert_eq!(cancelled, vec![0]);
    assert!(!reg.is_active(&timer(50).identity_hash()));
    assert!(reg.is_active(&timer(200).identity_hash()));
    // nothing was started for the surviving identity
    assert_eq!(next, 2);

    // declare nothing: the remaining sequence is cancelled too
    let cancelled = run_cycle(&mut reg, &[], &mut next);
    assert_eq!(cancelled, vec![1]);
    assert!(!reg.is_active(&timer(200).identity_hash()));
}

#[test]
fn retained_identity_keeps_its_handle() {
    let mut reg: Registry<u32> = Registry::new();
    let mut next: u32 = 0;

    run_cycle(&mut reg, &[timer(100)], &mut next);
    // a new identity joins; the old one keeps running untouched
    run_cycle(&mut reg, &[timer(100), timer(300)], &mut next);
    assert_eq!(next, 2);

    // cancelling the old identity returns its original handle
    let cancelled = run_cycle(&mut reg, &[timer(300)], &mut next);
    assert_eq!(cancelled, vec![0]);
}

#[test]
fn to_start_keeps_declaration_order() {
    let reg: Registry<u32> = Registry::new();
    let declared = vec![timer(3), timer(1), timer(2)];
    let to_start = reg.to_start(&declared);
    assert_eq!(to_start, vec![timer(3), timer(1), timer(2)]);
}

#[test]
fn collapse_keeps_first_occurrences() {
    let declared = vec![timer(1), timer(2), timer(1), timer(3), timer(2)];
    let collapsed = collapse(&declared);
    assert_eq!(collapsed, vec![timer(1), timer(2), timer(3)]);
}

#[test]
fn declarations_from_every_deduplicate() {
    let mut reg: Registry<u32> = Registry::new();
    let mut next: u32 = 0;
    let declared = [every(100_000_000).recipe(), every(100_000_000).recipe()];
    run_cycle(&mut reg, &declared, &mut next);
    assert_eq!(next, 1);
}
