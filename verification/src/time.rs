//! Listen and react to time: the periodic timer source and its schedule.

use vstd::prelude::*;
use crate::subscription::{from_recipe, Recipe, Subscription};

verus! {

/// Returns a subscription that produces a timestamp at a set interval.
///
/// The first timestamp is produced after `duration_nanos` nanoseconds,
/// and more follow every `duration_nanos` nanoseconds after that.
pub fn every(duration_nanos: u64) -> (s: Subscription)
    requires
        duration_nanos > 0,
    ensures
        s.recipe_spec() == (Recipe::PeriodicTimer { interval_nanos: duration_nanos }),
        s.recipe_spec().wf(),
{
    from_recipe(Recipe::PeriodicTimer { interval_nanos: duration_nanos })
}

/// The instant, in nanoseconds of elapsed time since instantiation, at
/// which a periodic timer of the given interval makes its emission number
/// `index` (counting from zero). The first emission happens one full
/// interval after instantiation, never immediately.
pub open spec fn emission_time(interval_nanos: nat, index: nat) -> nat {
    interval_nanos * (index + 1)
}

/// Computes the elapsed time of emission number `index` of a periodic
/// timer, or `None` when that instant does not fit in 64 bits.
pub fn nth_emission_nanos(interval_nanos: u64, index: u64) -> (r: Option<u64>)
    requires
        interval_nanos > 0,
    ensures
        r matches Some(t) ==> t == emission_time(interval_nanos as nat, index as nat),
        r is Some <==> emission_time(interval_nanos as nat, index as nat) <= u64::MAX,
{
    match index.checked_add(1) {
        Some(count) => {
            let r = interval_nanos.checked_mul(count);
            proof {
                assert(interval_nanos * count == emission_time(
                    interval_nanos as nat,
                    index as nat,
                ));
            }
            r
        },
        None => {
            proof {
                assert(emission_time(interval_nanos as nat, index as nat) > u64::MAX) by (
                nonlinear_arith)
                    requires
                        interval_nanos >= 1,
                        index == u64::MAX,
                ;
            }
            None
        },
    }
}

/// Counts how many emissions a periodic timer of the given interval has
/// made once `elapsed_nanos` nanoseconds have passed since instantiation.
pub fn emissions_by(elapsed_nanos: u64, interval_nanos: u64) -> (n: u64)
    requires
        interval_nanos > 0,
    ensures
        n == elapsed_nanos as int / interval_nanos as int,
{
    elapsed_nanos / interval_nanos
}

/// Law: `emissions_by` counts exactly the emissions whose instant has
/// been reached. Emission number `index` has happened within `elapsed`
/// nanoseconds if and only if it is below the returned count. In
/// particular no emission has happened strictly before one full interval.
pub proof fn lemma_emission_count(interval: nat, elapsed: nat, index: nat)
    requires
        interval > 0,
    ensures
        emission_time(interval, index) <= elapsed <==> index < elapsed as int / interval as int,
        elapsed < interval ==> elapsed as int / interval as int == 0,
{
    let iv = interval as int;
    let e = elapsed as int;
    let q = e / iv;
    let rr = e % iv;
    vstd::arithmetic::div_mod::lemma_fundamental_div_mod(e, iv);
    vstd::arithmetic::div_mod::lemma_mod_bound(e, iv);
    if emission_time(interval, index) <= elapsed {
        assert(index < q) by (nonlinear_arith)
            requires
                iv * (index + 1) <= e,
                e == iv * q + rr,
                0 <= rr,
                rr < iv,
                iv > 0,
        ;
    }
    if index < q {
        assert(iv * (index + 1) <= e) by (nonlinear_arith)
            requires
                index + 1 <= q,
                e == iv * q + rr,
                0 <= rr,
                iv > 0,
        ;
    }
    if elapsed < interval {
        vstd::arithmetic::div_mod::lemma_basic_div(e, iv);
    }
}

} // verus!
