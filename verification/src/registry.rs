//! The subscription registry: tracks active identities across cycles.

use vstd::prelude::*;
use crate::subscription::{Digest, Recipe};

verus! {

/// One active identity, paired with the handle of its live sequence.
///
/// The handle type is chosen by the backend that instantiates recipes;
/// the registry owns each handle exclusively and gives it back when the
/// identity is cancelled, so the backend can stop the sequence.
pub struct ActiveEntry<H> {
    pub digest: Digest,
    pub handle: H,
}

/// True when `recipes[i].digest_spec() == d` for some index `i`.
pub open spec fn has_digest(recipes: Seq<Recipe>, d: Digest) -> bool {
    exists|i: int| 0 <= i < recipes.len() && recipes[i].digest_spec() == d
}

/// True when no two recipes in the sequence share a digest.
pub open spec fn distinct_recipe_digests(recipes: Seq<Recipe>) -> bool {
    forall|i: int, j: int|
        0 <= i < j < recipes.len() ==> recipes[i].digest_spec() != recipes[j].digest_spec()
}

/// True when no two entries in the sequence share a digest.
pub open spec fn distinct_entry_digests<H>(entries: Seq<ActiveEntry<H>>) -> bool {
    forall|i: int, j: int| 0 <= i < j < entries.len() ==> entries[i].digest != entries[j].digest
}

/// True when `entries[i].digest == d` for some index `i`.
pub open spec fn entries_have_digest<H>(entries: Seq<ActiveEntry<H>>, d: Digest) -> bool {
    exists|i: int| 0 <= i < entries.len() && entries[i].digest == d
}

/// The digests of a sequence of recipes, in order.
pub open spec fn recipe_digests(recipes: Seq<Recipe>) -> Seq<Digest> {
    recipes.map_values(|r: Recipe| r.digest_spec())
}

/// The digests of a sequence of active entries, in order.
pub open spec fn entry_digests<H>(entries: Seq<ActiveEntry<H>>) -> Seq<Digest> {
    entries.map_values(|e: ActiveEntry<H>| e.digest)
}

/// True when no two digests in the sequence are equal.
pub open spec fn distinct_digests(ds: Seq<Digest>) -> bool {
    forall|i: int, j: int| 0 <= i < j < ds.len() ==> ds[i] != ds[j]
}

/// The declared recipes with duplicate identities collapsed: of several
/// declared recipes with the same digest, only the first is kept, so the
/// registry instantiates each declared identity at most once.
pub open spec fn collapsed(declared: Seq<Recipe>) -> Seq<Recipe>
    decreases declared.len(),
{
    if declared.len() == 0 {
        Seq::empty()
    } else {
        let prior = collapsed(declared.drop_last());
        if has_digest(declared.drop_last(), declared.last().digest_spec()) {
            prior
        } else {
            prior.push(declared.last())
        }
    }
}

/// Collapsing keeps exactly the declared identities, each once, and
/// keeps only recipes that were declared.
pub proof fn lemma_collapsed_digests(declared: Seq<Recipe>)
    ensures
        distinct_recipe_digests(collapsed(declared)),
        forall|d: Digest| has_digest(collapsed(declared), d) <==> has_digest(declared, d),
        forall|i: int|
            0 <= i < collapsed(declared).len() ==> declared.contains(collapsed(declared)[i]),
    decreases declared.len(),
{
    if declared.len() > 0 {
        let prev = declared.drop_last();
        let last = declared.last();
        let prior = collapsed(prev);
        lemma_collapsed_digests(prev);
        assert forall|d: Digest| has_digest(collapsed(declared), d) implies has_digest(
            declared,
            d,
        ) by {
            if has_digest(prior, d) {
                assert(has_digest(prev, d));
                let k = choose|k: int| 0 <= k < prev.len() && prev[k].digest_spec() == d;
                assert(declared[k].digest_spec() == d);
            } else {
                assert(declared[declared.len() - 1].digest_spec() == d);
            }
        }
        assert forall|d: Digest| has_digest(declared, d) implies has_digest(
            collapsed(declared),
            d,
        ) by {
            let k = choose|k: int| 0 <= k < declared.len() && declared[k].digest_spec() == d;
            if k < declared.len() - 1 {
                assert(prev[k] == declared[k]);
                assert(prev[k].digest_spec() == d);
                assert(has_digest(prev, d));
                assert(has_digest(prior, d));
                let m = choose|m: int| 0 <= m < prior.len() && prior[m].digest_spec() == d;
                assert(collapsed(declared)[m].digest_spec() == d);
            } else {
                assert(declared[k] == last);
                if has_digest(prev, last.digest_spec()) {
                    assert(has_digest(prev, d));
                    assert(has_digest(prior, d));
                    let m = choose|m: int| 0 <= m < prior.len() && prior[m].digest_spec() == d;
                    assert(collapsed(declared)[m].digest_spec() == d);
                } else {
                    assert(collapsed(declared).last().digest_spec() == d);
                }
            }
        }
        assert forall|i: int|
            0 <= i < collapsed(declared).len() implies declared.contains(
            collapsed(declared)[i],
        ) by {
            if i < prior.len() {
                assert(prev.contains(prior[i]));
                let k = choose|k: int| 0 <= k < prev.len() && prev[k] == prior[i];
                assert(declared[k] == collapsed(declared)[i]);
            } else {
                assert(declared[declared.len() - 1] == collapsed(declared)[i]);
            }
        }
        if !has_digest(prev, last.digest_spec()) {
            assert forall|i: int, j: int|
                0 <= i < j < collapsed(declared).len() implies collapsed(declared)[i].digest_spec()
                != collapsed(declared)[j].digest_spec() by {
                if j < prior.len() {
                } else {
                    assert(has_digest(prior, prior[i].digest_spec()));
                    assert(has_digest(prev, prior[i].digest_spec()));
                }
            }
        }
    }
}

/// Returns whether some recipe in `declared` has the digest `d`.
pub fn contains_recipe_digest(declared: &Vec<Recipe>, d: &Digest) -> (r: bool)
    ensures
        r == has_digest(declared@, *d),
{
    let mut i: usize = 0;
    while i < declared.len()
        invariant
            0 <= i <= declared.len(),
            forall|k: int| 0 <= k < i ==> declared@[k].digest_spec() != *d,
        decreases declared.len() - i,
    {
        if declared[i].identity_hash() == *d {
            return true;
        }
        i += 1;
    }
    false
}

/// Collapses duplicate identities in a declared set: of several recipes
/// with the same digest, only the first stays, so what the registry
/// receives holds each declared identity exactly once.
pub fn collapse(declared: &Vec<Recipe>) -> (r: Vec<Recipe>)
    ensures
        r@ == collapsed(declared@),
        distinct_recipe_digests(r@),
        forall|d: Digest| has_digest(r@, d) <==> has_digest(declared@, d),
        forall|i: int| 0 <= i < r@.len() ==> declared@.contains(r@[i]),
{
    let mut r: Vec<Recipe> = Vec::new();
    let mut i: usize = 0;
    proof {
        assert(declared@.take(0) =~= Seq::<Recipe>::empty());
    }
    while i < declared.len()
        invariant
            0 <= i <= declared.len(),
            r@ == collapsed(declared@.take(i as int)),
        decreases declared.len() - i,
    {
        let dg = declared[i].identity_hash();
        let mut seen = false;
        let mut j: usize = 0;
        while j < i
            invariant
                0 <= j <= i < declared.len(),
                dg == declared@[i as int].digest_spec(),
                seen ==> exists|k: int|
                    0 <= k < j && declared@[k].digest_spec() == declared@[i as int].digest_spec(),
                !seen ==> forall|k: int|
                    0 <= k < j ==> declared@[k].digest_spec() != declared@[i as int].digest_spec(),
            decreases i - j,
        {
            if declared[j].identity_hash() == dg {
                seen = true;
                proof {
                    assert(declared@[j as int].digest_spec() == declared@[
                        i as int].digest_spec());
                }
            }
            j += 1;
        }
        proof {
            let prefix = declared@.take(i as int);
            let step = declared@.take(i as int + 1);
            let di = declared@[i as int].digest_spec();
            assert(step.drop_last() =~= prefix);
            assert(step.last() == declared@[i as int]);
            assert(seen == has_digest(prefix, di)) by {
                if seen {
                    let k = choose|k: int| 0 <= k < i && declared@[k].digest_spec() == di;
                    assert(prefix[k].digest_spec() == di);
                }
                if has_digest(prefix, di) {
                    let k = choose|k: int|
                        0 <= k < prefix.len() && prefix[k].digest_spec() == di;
                    assert(declared@[k].digest_spec() == di);
                }
            }
        }
        if !seen {
            r.push(declared[i]);
        }
        i += 1;
    }
    proof {
        assert(declared@.take(declared@.len() as int) =~= declared@);
        lemma_collapsed_digests(declared@);
    }
    r
}

/// The recipes of a declared set whose identity is not yet active: the
/// ones the registry must instantiate this cycle, in declaration order.
pub open spec fn additions(active: Seq<Digest>, declared: Seq<Recipe>) -> Seq<Recipe>
    decreases declared.len(),
{
    if declared.len() == 0 {
        Seq::empty()
    } else {
        let prior = additions(active, declared.drop_last());
        if active.contains(declared.last().digest_spec()) {
            prior
        } else {
            prior.push(declared.last())
        }
    }
}

/// The entries of the previous cycle whose identity is declared again:
/// they stay active, their in-flight state untouched, in their old order.
pub open spec fn kept_entries<H>(entries: Seq<ActiveEntry<H>>, declared: Seq<Recipe>) -> Seq<
    ActiveEntry<H>,
>
    decreases entries.len(),
{
    if entries.len() == 0 {
        Seq::empty()
    } else {
        let prior = kept_entries(entries.drop_last(), declared);
        if has_digest(declared, entries.last().digest) {
            prior.push(entries.last())
        } else {
            prior
        }
    }
}

/// The handles of the previous cycle's entries whose identity is no
/// longer declared: their sequences are to be cancelled.
pub open spec fn dropped_handles<H>(entries: Seq<ActiveEntry<H>>, declared: Seq<Recipe>) -> Seq<H>
    decreases entries.len(),
{
    if entries.len() == 0 {
        Seq::empty()
    } else {
        let prior = dropped_handles(entries.drop_last(), declared);
        if has_digest(declared, entries.last().digest) {
            prior
        } else {
            prior.push(entries.last().handle)
        }
    }
}

/// Retaining keeps exactly the identities that are both active and
/// declared, and never makes an identity active twice.
pub proof fn lemma_kept_entries_membership<H>(entries: Seq<ActiveEntry<H>>, declared: Seq<Recipe>)
    ensures
        forall|d: Digest|
            #[trigger] entries_have_digest(kept_entries(entries, declared), d) <==> (
            entries_have_digest(entries, d) && has_digest(declared, d)),
        distinct_entry_digests(entries) ==> distinct_entry_digests(
            kept_entries(entries, declared),
        ),
    decreases entries.len(),
{
    if entries.len() > 0 {
        let prev = entries.drop_last();
        let last = entries.last();
        let prior = kept_entries(prev, declared);
        let kept = kept_entries(entries, declared);
        lemma_kept_entries_membership(prev, declared);
        assert forall|d: Digest|
            #[trigger] entries_have_digest(kept_entries(entries, declared), d) <==> (
        entries_have_digest(entries, d) && has_digest(declared, d)) by {
            if entries_have_digest(kept, d) {
                let m = choose|m: int| 0 <= m < kept.len() && kept[m].digest == d;
                if m < prior.len() {
                    assert(prior[m].digest == d);
                    assert(entries_have_digest(prior, d));
                    assert(entries_have_digest(prev, d));
                    let k = choose|k: int| 0 <= k < prev.len() && prev[k].digest == d;
                    assert(prev[k] == entries[k]);
                    assert(entries[k].digest == d);
                } else {
                    assert(kept[m] == last);
                    assert(entries[entries.len() - 1].digest == d);
                }
            }
            if entries_have_digest(entries, d) && has_digest(declared, d) {
                let k = choose|k: int| 0 <= k < entries.len() && entries[k].digest == d;
                if k < entries.len() - 1 {
                    assert(prev[k] == entries[k]);
                    assert(prev[k].digest == d);
                    assert(entries_have_digest(prev, d));
                    assert(entries_have_digest(prior, d));
                    let m = choose|m: int| 0 <= m < prior.len() && prior[m].digest == d;
                    assert(kept[m].digest == d);
                } else {
                    assert(kept.last().digest == d);
                }
            }
        }
        if distinct_entry_digests(entries) {
            assert(distinct_entry_digests(prev));
            if has_digest(declared, last.digest) {
                assert forall|i: int, j: int| 0 <= i < j < kept.len() implies kept[i].digest
                    != kept[j].digest by {
                    if j < prior.len() {
                    } else {
                        assert(entries_have_digest(prior, prior[i].digest));
                        assert(entries_have_digest(prev, prior[i].digest));
                        let k = choose|k: int|
                            0 <= k < prev.len() && prev[k].digest == prior[i].digest;
                        assert(entries[k].digest != entries[entries.len() - 1].digest);
                    }
                }
            }
        }
    }
}

/// Membership in a concatenation of digest sequences is membership in
/// either part.
pub proof fn lemma_digest_concat_contains(a: Seq<Digest>, b: Seq<Digest>)
    ensures
        forall|d: Digest| #[trigger] (a + b).contains(d) <==> a.contains(d) || b.contains(d),
{
    assert forall|d: Digest| #[trigger] (a + b).contains(d) <==> a.contains(d) || b.contains(
        d,
    ) by {
        if (a + b).contains(d) {
            let k = choose|k: int| 0 <= k < (a + b).len() && (a + b)[k] == d;
            if k < a.len() {
                assert(a[k] == d);
            } else {
                assert(b[k - a.len()] == d);
            }
        }
        if a.contains(d) {
            let k = choose|k: int| 0 <= k < a.len() && a[k] == d;
            assert((a + b)[k] == d);
        }
        if b.contains(d) {
            let k = choose|k: int| 0 <= k < b.len() && b[k] == d;
            assert((a + b)[a.len() + k] == d);
        }
    }
}

/// The digests of a sequence of entries contain `d` exactly when some
/// entry carries `d`.
pub proof fn lemma_entry_digests_contains<H>(entries: Seq<ActiveEntry<H>>)
    ensures
        forall|d: Digest|
            #[trigger] entry_digests(entries).contains(d) <==> entries_have_digest(entries, d),
{
    assert forall|d: Digest|
        #[trigger] entry_digests(entries).contains(d) <==> entries_have_digest(entries, d) by {
        if entry_digests(entries).contains(d) {
            let k = choose|k: int|
                0 <= k < entry_digests(entries).len() && entry_digests(entries)[k] == d;
            assert(entries[k].digest == d);
        }
        if entries_have_digest(entries, d) {
            let k = choose|k: int| 0 <= k < entries.len() && entries[k].digest == d;
            assert(entry_digests(entries)[k] == d);
        }
    }
}

/// The digests of a sequence of recipes contain `d` exactly when some
/// recipe hashes to `d`.
pub proof fn lemma_recipe_digests_contains(recipes: Seq<Recipe>)
    ensures
        forall|d: Digest|
            #[trigger] recipe_digests(recipes).contains(d) <==> has_digest(recipes, d),
{
    assert forall|d: Digest|
        #[trigger] recipe_digests(recipes).contains(d) <==> has_digest(recipes, d) by {
        if recipe_digests(recipes).contains(d) {
            let k = choose|k: int|
                0 <= k < recipe_digests(recipes).len() && recipe_digests(recipes)[k] == d;
            assert(recipes[k].digest_spec() == d);
        }
        if has_digest(recipes, d) {
            let k = choose|k: int| 0 <= k < recipes.len() && recipes[k].digest_spec() == d;
            assert(recipe_digests(recipes)[k] == d);
        }
    }
}

/// The recipes a cycle starts are exactly the declared identities that
/// were not active, each once, and every one of them was declared.
pub proof fn lemma_additions_membership(active: Seq<Digest>, declared: Seq<Recipe>)
    ensures
        forall|d: Digest|
            #[trigger] has_digest(additions(active, declared), d) <==> (has_digest(declared, d)
                && !active.contains(d)),
        distinct_recipe_digests(declared) ==> distinct_recipe_digests(
            additions(active, declared),
        ),
        forall|i: int|
            0 <= i < additions(active, declared).len() ==> declared.contains(
                #[trigger] additions(active, declared)[i],
            ),
    decreases declared.len(),
{
    if declared.len() > 0 {
        let prev = declared.drop_last();
        let last = declared.last();
        let prior = additions(active, prev);
        let full = additions(active, declared);
        lemma_additions_membership(active, prev);
        assert forall|d: Digest|
            #[trigger] has_digest(additions(active, declared), d) <==> (has_digest(declared, d)
                && !active.contains(d)) by {
            if has_digest(full, d) {
                let m = choose|m: int| 0 <= m < full.len() && full[m].digest_spec() == d;
                if m < prior.len() {
                    assert(prior[m].digest_spec() == d);
                    assert(has_digest(prior, d));
                    let k = choose|k: int| 0 <= k < prev.len() && prev[k].digest_spec() == d;
                    assert(prev[k] == declared[k]);
                    assert(declared[k].digest_spec() == d);
                } else {
                    assert(full[m] == last);
                    assert(declared[declared.len() - 1].digest_spec() == d);
                }
            }
            if has_digest(declared, d) && !active.contains(d) {
                let k = choose|k: int| 0 <= k < declared.len() && declared[k].digest_spec() == d;
                if k < declared.len() - 1 {
                    assert(prev[k] == declared[k]);
                    assert(prev[k].digest_spec() == d);
                    assert(has_digest(prev, d));
                    assert(has_digest(prior, d));
                    let m = choose|m: int| 0 <= m < prior.len() && prior[m].digest_spec() == d;
                    assert(full[m].digest_spec() == d);
                } else {
                    assert(full.last().digest_spec() == d);
                }
            }
        }
        assert forall|i: int|
            0 <= i < additions(active, declared).len() implies declared.contains(
            #[trigger] additions(active, declared)[i],
        ) by {
            if i < prior.len() {
                assert(prev.contains(prior[i]));
                let k = choose|k: int| 0 <= k < prev.len() && prev[k] == prior[i];
                assert(declared[k] == full[i]);
            } else {
                assert(declared[declared.len() - 1] == full[i]);
            }
        }
        if distinct_recipe_digests(declared) {
            assert(distinct_recipe_digests(prev));
            if !active.contains(last.digest_spec()) {
                assert forall|i: int, j: int| 0 <= i < j < full.len() implies full[i].digest_spec()
                    != full[j].digest_spec() by {
                    if j < prior.len() {
                    } else {
                        assert(prev.contains(prior[i]));
                        let k = choose|k: int| 0 <= k < prev.len() && prev[k] == prior[i];
                        assert(declared[k] == prev[k]);
                        assert(declared[k].digest_spec() != declared[declared.len()
                            - 1].digest_spec());
                    }
                }
            }
        }
    }
}

/// The identities active after one full declaration cycle: the retained
/// entries' digests followed by the digests of the newly started recipes.
pub open spec fn digests_after_cycle<H>(
    entries: Seq<ActiveEntry<H>>,
    declared: Seq<Recipe>,
) -> Seq<Digest> {
    entry_digests(kept_entries(entries, declared)) + recipe_digests(
        additions(entry_digests(entries), declared),
    )
}

/// Law: a declaration cycle leaves exactly the declared identities
/// active, each exactly once. An identity declared in consecutive cycles
/// is therefore backed by one live sequence, never by duplicates.
pub proof fn lemma_cycle_exactly_once<H>(entries: Seq<ActiveEntry<H>>, declared: Seq<Recipe>)
    requires
        distinct_entry_digests(entries),
        distinct_recipe_digests(declared),
    ensures
        forall|d: Digest|
            #[trigger] digests_after_cycle(entries, declared).contains(d) <==> has_digest(
                declared,
                d,
            ),
        distinct_digests(digests_after_cycle(entries, declared)),
{
    let active = entry_digests(entries);
    let kept = kept_entries(entries, declared);
    let started = additions(active, declared);
    let kd = entry_digests(kept);
    let ad = recipe_digests(started);
    lemma_kept_entries_membership(entries, declared);
    lemma_additions_membership(active, declared);
    lemma_entry_digests_contains(entries);
    lemma_entry_digests_contains(kept);
    lemma_recipe_digests_contains(started);
    lemma_digest_concat_contains(kd, ad);
    assert forall|d: Digest|
        #[trigger] digests_after_cycle(entries, declared).contains(d) <==> has_digest(
        declared,
        d,
    ) by {
        assert((kd + ad).contains(d) <==> kd.contains(d) || ad.contains(d));
        if has_digest(declared, d) {
            if entries_have_digest(entries, d) {
                assert(entries_have_digest(kept, d));
            } else {
                assert(has_digest(started, d));
            }
        }
    }
    assert(distinct_digests(kd)) by {
        assert(distinct_entry_digests(kept));
        assert forall|i: int, j: int| 0 <= i < j < kd.len() implies kd[i] != kd[j] by {
            assert(kd[i] == kept[i].digest);
            assert(kd[j] == kept[j].digest);
        }
    }
    assert(distinct_digests(ad)) by {
        assert(distinct_recipe_digests(started));
        assert forall|i: int, j: int| 0 <= i < j < ad.len() implies ad[i] != ad[j] by {
            assert(ad[i] == started[i].digest_spec());
            assert(ad[j] == started[j].digest_spec());
        }
    }
    assert forall|i: int, j: int|
        0 <= i < j < digests_after_cycle(entries, declared).len() implies digests_after_cycle(
        entries,
        declared,
    )[i] != digests_after_cycle(entries, declared)[j] by {
        let c = kd + ad;
        if i < kd.len() && j >= kd.len() {
            assert(c[i] == kd[i]);
            assert(c[j] == ad[j - kd.len()]);
            assert(kd[i] == kept[i].digest);
            assert(entries_have_digest(kept, kd[i]));
            assert(entries_have_digest(entries, kd[i]));
            assert(active.contains(kd[i]));
            assert(ad[j - kd.len()] == started[j - kd.len()].digest_spec());
            assert(has_digest(started, ad[j - kd.len()]));
            assert(!active.contains(ad[j - kd.len()]));
        }
    }
}

/// When every declared identity is already active, a cycle starts
/// nothing: no recipe is instantiated a second time.
pub proof fn lemma_additions_all_present(active: Seq<Digest>, declared: Seq<Recipe>)
    requires
        forall|k: int|
            0 <= k < declared.len() ==> active.contains(#[trigger] declared[k].digest_spec()),
    ensures
        additions(active, declared) == Seq::<Recipe>::empty(),
    decreases declared.len(),
{
    if declared.len() > 0 {
        let prev = declared.drop_last();
        assert forall|k: int|
            0 <= k < prev.len() implies active.contains(#[trigger] prev[k].digest_spec()) by {
            assert(prev[k] == declared[k]);
        }
        lemma_additions_all_present(active, prev);
        assert(active.contains(declared[declared.len() - 1].digest_spec()));
    } else {
        assert(additions(active, declared) =~= Seq::<Recipe>::empty());
    }
}

/// When every active identity is declared again, a cycle cancels
/// nothing: all entries stay, and no handle is given up.
pub proof fn lemma_kept_all_declared<H>(entries: Seq<ActiveEntry<H>>, declared: Seq<Recipe>)
    requires
        forall|i: int| 0 <= i < entries.len() ==> has_digest(declared, #[trigger] entries[i].digest),
    ensures
        kept_entries(entries, declared) == entries,
        dropped_handles(entries, declared) == Seq::<H>::empty(),
    decreases entries.len(),
{
    if entries.len() > 0 {
        let prev = entries.drop_last();
        assert forall|i: int|
            0 <= i < prev.len() implies has_digest(declared, #[trigger] prev[i].digest) by {
            assert(prev[i] == entries[i]);
        }
        lemma_kept_all_declared(prev, declared);
        assert(has_digest(declared, entries[entries.len() - 1].digest));
        assert(kept_entries(entries, declared) =~= entries);
    } else {
        assert(kept_entries(entries, declared) =~= entries);
        assert(dropped_handles(entries, declared) =~= Seq::<H>::empty());
    }
}

/// Law: a second cycle with the same declared set is a no-op. Nothing
/// is started again, nothing is cancelled, and every retained sequence
/// keeps running untouched.
pub proof fn lemma_second_cycle_no_op<H, H2>(
    entries: Seq<ActiveEntry<H>>,
    entries2: Seq<ActiveEntry<H2>>,
    declared: Seq<Recipe>,
)
    requires
        distinct_entry_digests(entries),
        distinct_recipe_digests(declared),
        entry_digests(entries2) == digests_after_cycle(entries, declared),
    ensures
        additions(entry_digests(entries2), declared) == Seq::<Recipe>::empty(),
        kept_entries(entries2, declared) == entries2,
        dropped_handles(entries2, declared) == Seq::<H2>::empty(),
{
    lemma_cycle_exactly_once(entries, declared);
    assert forall|k: int|
        0 <= k < declared.len() implies entry_digests(entries2).contains(
        #[trigger] declared[k].digest_spec(),
    ) by {
        assert(has_digest(declared, declared[k].digest_spec()));
    }
    lemma_additions_all_present(entry_digests(entries2), declared);
    assert forall|i: int|
        0 <= i < entries2.len() implies has_digest(declared, #[trigger] entries2[i].digest) by {
        assert(entry_digests(entries2)[i] == entries2[i].digest);
        assert(entry_digests(entries2).contains(entries2[i].digest));
    }
    lemma_kept_all_declared(entries2, declared);
}

/// Law: an identity removed from the declared set is cancelled by the
/// cycle. Its entry leaves the registry, its handle is surrendered so
/// the backend can stop the sequence at once, and the identity is not
/// active afterwards.
pub proof fn lemma_removed_identity_cancelled<H>(
    entries: Seq<ActiveEntry<H>>,
    declared: Seq<Recipe>,
    i: int,
)
    requires
        0 <= i < entries.len(),
        !has_digest(declared, entries[i].digest),
    ensures
        !entries_have_digest(kept_entries(entries, declared), entries[i].digest),
        dropped_handles(entries, declared).contains(entries[i].handle),
        !digests_after_cycle(entries, declared).contains(entries[i].digest),
{
    let d = entries[i].digest;
    lemma_kept_entries_membership(entries, declared);
    assert(dropped_handles(entries, declared).contains(entries[i].handle)) by {
        lemma_dropped_handle_present(entries, declared, i);
    }
    lemma_entry_digests_contains(kept_entries(entries, declared));
    lemma_recipe_digests_contains(additions(entry_digests(entries), declared));
    lemma_additions_membership(entry_digests(entries), declared);
    lemma_digest_concat_contains(
        entry_digests(kept_entries(entries, declared)),
        recipe_digests(additions(entry_digests(entries), declared)),
    );
    assert(!has_digest(additions(entry_digests(entries), declared), d));
}

/// The handle of an entry whose identity is not declared appears among
/// the dropped handles.
pub proof fn lemma_dropped_handle_present<H>(
    entries: Seq<ActiveEntry<H>>,
    declared: Seq<Recipe>,
    i: int,
)
    requires
        0 <= i < entries.len(),
        !has_digest(declared, entries[i].digest),
    ensures
        dropped_handles(entries, declared).contains(entries[i].handle),
    decreases entries.len(),
{
    let prev = entries.drop_last();
    if i == entries.len() - 1 {
        assert(dropped_handles(entries, declared).last() == entries[i].handle);
    } else {
        assert(prev[i] == entries[i]);
        lemma_dropped_handle_present(prev, declared, i);
        let dropped = dropped_handles(prev, declared);
        let k = choose|k: int| 0 <= k < dropped.len() && dropped[k] == entries[i].handle;
        assert(dropped_handles(entries, declared)[k] == entries[i].handle);
    }
}

/// Tracks the currently active identities and their live sequences.
///
/// Invariant: at most one active entry exists per identity digest at any
/// time, so equal declared recipes never spawn duplicate sequences.
pub struct Registry<H> {
    entries: Vec<ActiveEntry<H>>,
}

impl<H> View for Registry<H> {
    type V = Seq<ActiveEntry<H>>;

    closed spec fn view(&self) -> Seq<ActiveEntry<H>> {
        self.entries@
    }
}

impl<H> Registry<H> {
    /// The registry's invariant: no identity is active twice.
    pub open spec fn wf(self) -> bool {
        distinct_entry_digests(self@)
    }

    /// True when the identity `d` is currently active.
    pub open spec fn contains_digest(self, d: Digest) -> bool {
        entries_have_digest(self@, d)
    }

    /// Creates an empty registry: no identity is active yet.
    pub fn new() -> (r: Registry<H>)
        ensures
            r@ == Seq::<ActiveEntry<H>>::empty(),
            r.wf(),
    {
        let r = Registry { entries: Vec::new() };
        proof {
            assert(r@ =~= Seq::<ActiveEntry<H>>::empty());
        }
        r
    }

    /// Returns whether the identity `d` is currently active.
    pub fn is_active(&self, d: &Digest) -> (r: bool)
        ensures
            r == self.contains_digest(*d),
    {
        let mut i: usize = 0;
        while i < self.entries.len()
            invariant
                0 <= i <= self.entries.len(),
                forall|k: int| 0 <= k < i ==> self.entries@[k].digest != *d,
            decreases self.entries.len() - i,
        {
            if self.entries[i].digest == *d {
                return true;
            }
            i += 1;
        }
        false
    }

    /// Returns the declared recipes whose identity is not active yet:
    /// exactly the ones to instantiate this cycle, in declaration order.
    /// Identities already active are left out, so a recipe declared again
    /// is never instantiated a second time.
    pub fn to_start(&self, declared: &Vec<Recipe>) -> (r: Vec<Recipe>)
        ensures
            r@ == additions(entry_digests(self@), declared@),
    {
        let mut r: Vec<Recipe> = Vec::new();
        let mut i: usize = 0;
        proof {
            assert(declared@.take(0) =~= Seq::<Recipe>::empty());
        }
        while i < declared.len()
            invariant
                0 <= i <= declared.len(),
                r@ == additions(entry_digests(self@), declared@.take(i as int)),
            decreases declared.len() - i,
        {
            let dg = declared[i].identity_hash();
            let active = self.is_active(&dg);
            proof {
                let prefix = declared@.take(i as int);
                let step = declared@.take(i as int + 1);
                assert(step.drop_last() =~= prefix);
                assert(step.last() == declared@[i as int]);
                assert(active == entry_digests(self@).contains(dg)) by {
                    if self.contains_digest(dg) {
                        let k = choose|k: int|
                            0 <= k < self@.len() && self@[k].digest == dg;
                        assert(entry_digests(self@)[k] == dg);
                    }
                    if entry_digests(self@).contains(dg) {
                        let k = choose|k: int|
                            0 <= k < entry_digests(self@).len() && entry_digests(self@)[k] == dg;
                        assert(self@[k].digest == dg);
                    }
                }
            }
            if !active {
                r.push(declared[i]);
            }
            i += 1;
        }
        proof {
            assert(declared@.take(declared@.len() as int) =~= declared@);
        }
        r
    }

    /// Cancels every active identity that is absent from the declared
    /// set: its entry is discarded and its handle returned, so the caller
    /// can stop the live sequence. Entries whose identity is declared
    /// again stay, in order, their running sequences untouched.
    pub fn retain_declared(&mut self, declared: &Vec<Recipe>) -> (cancelled: Vec<H>)
        ensures
            final(self)@ == kept_entries(old(self)@, declared@),
            cancelled@ == dropped_handles(old(self)@, declared@),
            old(self).wf() ==> final(self).wf(),
    {
        let ghost orig = self@;
        let mut kept: Vec<ActiveEntry<H>> = Vec::new();
        let mut cancelled: Vec<H> = Vec::new();
        let ghost mut k: int = 0;
        proof {
            assert(orig.take(0) =~= Seq::<ActiveEntry<H>>::empty());
            assert(self.entries@ =~= orig.skip(0));
        }
        while self.entries.len() > 0
            invariant
                0 <= k <= orig.len(),
                self.entries@ == orig.skip(k),
                kept@ == kept_entries(orig.take(k), declared@),
                cancelled@ == dropped_handles(orig.take(k), declared@),
            decreases self.entries.len(),
        {
            let e = self.entries.remove(0);
            let present = contains_recipe_digest(declared, &e.digest);
            proof {
                assert(orig.skip(k)[0] == orig[k]);
                assert(orig.skip(k).remove(0) =~= orig.skip(k + 1));
                let step = orig.take(k + 1);
                assert(step.drop_last() =~= orig.take(k));
                assert(step.last() == orig[k]);
            }
            let ActiveEntry { digest, handle } = e;
            if present {
                kept.push(ActiveEntry { digest, handle });
            } else {
                cancelled.push(handle);
            }
            proof {
                k = k + 1;
            }
        }
        proof {
            assert(orig.take(orig.len() as int) =~= orig);
            lemma_kept_entries_membership(orig, declared@);
        }
        self.entries = kept;
        cancelled
    }

    /// Records a newly instantiated sequence for the identity `d`.
    ///
    /// The identity must not be active yet: the registry starts a
    /// sequence only for identities absent from the previous cycle.
    pub fn activate(&mut self, d: Digest, handle: H)
        requires
            !old(self).contains_digest(d),
        ensures
            final(self)@ == old(self)@.push(ActiveEntry { digest: d, handle }),
            old(self).wf() ==> final(self).wf(),
    {
        self.entries.push(ActiveEntry { digest: d, handle });
    }
}

} // verus!
