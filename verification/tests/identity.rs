//! Identity hashing: determinism and collision freedom.

use subscriptions::subscription::{from_recipe, Recipe};
use subscriptions::time::every;

#[test]
fn equal_recipes_hash_equal() {
    let r1 = Recipe::PeriodicTimer {
        interval_nanos: 100_000_000,
    };
    let r2 = Recipe::PeriodicTimer {
        interval_nanos: 100_000_000,
    };
    assert_eq!(r1.identity_hash(), r2.identity_hash());
    assert_eq!(r1.identity_hash(), r1.identity_hash());
}

#[test]
fn distinct_durations_hash_distinct() {
    // Durations spanning more than three orders of magnitude: 1ms to 10s.
    let durations: Vec<u64> = vec![
        1_000_000,
        2_000_000,
        10_000_000,
        50_000_000,
        100_000_000,
        200_000_000,
        1_000_000_000,
        10_000_000_000,
    ];
    for (i, a) in durations.iter().enumerate() {
        for (j, b) in durations.iter().enumerate() {
            let ra = Recipe::PeriodicTimer { interval_nanos: *a };
            let rb = Recipe::PeriodicTimer { interval_nanos: *b };
            if i == j {
                assert_eq!(ra.identity_hash(), rb.identity_hash());
            } else {
                assert_ne!(ra.identity_hash(), rb.identity_hash());
            }
        }
    }
}

#[test]
fn every_declares_a_periodic_timer() {
    let s = every(250_000_000);
    assert_eq!(
        s.recipe(),
        Recipe::PeriodicTimer {
            interval_nanos: 250_000_000
        }
    );
}

#[test]
fn from_recipe_keeps_the_recipe() {
    let r = Recipe::PeriodicTimer {
        interval_nanos: 42,
    };
    let s = from_recipe(r);
    assert_eq!(s.recipe(), r);
}

#[test]
fn equal_declarations_share_identity() {
    let a = every(100_000_000);
    let b = every(100_000_000);
    assert_eq!(a.recipe().identity_hash(), b.recipe().identity_hash());
}
