//! Which archives are accepted, told by their records alone.

use vstd::prelude::*;
use crate::coldchain::excursions;
use crate::coldchain::laws;
use crate::coldchain::model;
use crate::coldchain::model::{Entry, Limit, Obs};
use crate::coldchain::reduce;
use crate::coldchain::validate;
use crate::text;

verus! {

/// An archive holds an observation.
pub open spec fn observed(records: Seq<Entry>, obs: Obs) -> bool {
    records.contains(Entry::Observation(obs))
}

/// An archive holds a configuration.
pub open spec fn configured(records: Seq<Entry>, limit: Limit) -> bool {
    records.contains(Entry::Configuration(limit))
}

/// A record that is named, of a named freezer, at a time that can be; an observation is
/// received when it was made or later, and a band of temperatures is not upside down.
pub open spec fn proper(entry: Entry) -> bool {
    match entry {
        Entry::Observation(obs) => {
            &&& obs.id.len() > 0
            &&& obs.freezer.len() > 0
            &&& 0 <= obs.observed_at <= obs.received_at
            &&& obs.replaces is Some ==> obs.replaces->0.len() > 0
        },
        Entry::Configuration(limit) => {
            &&& limit.id.len() > 0
            &&& limit.freezer.len() > 0
            &&& limit.effective_at >= 0
            &&& limit.min_temp_tenths <= limit.max_temp_tenths
        },
    }
}

/// An observation corrects none, or one of the archive and of its own freezer.
#[verifier::opaque]
pub open spec fn well_aimed(records: Seq<Entry>, obs: Obs) -> bool {
    obs.replaces is Some ==> exists|other: Obs| #[trigger]
        observed(records, other) && obs.replaces == Some(other.id) && other.freezer == obs.freezer
}

/// Proper records, one for each identity, whose corrections aim well and do not compete,
/// and whose limits do not compete either.
pub open spec fn consistent(records: Seq<Entry>) -> bool {
    &&& forall|i: int| 0 <= i < records.len() ==> proper(#[trigger] records[i])
    &&& forall|a: Obs, b: Obs| #[trigger]
        observed(records, a) && #[trigger] observed(records, b) && a.id == b.id ==> a == b
    &&& forall|a: Limit, b: Limit| #[trigger]
        configured(records, a) && #[trigger] configured(records, b) && a.id == b.id ==> a == b
    &&& forall|a: Obs| #[trigger] observed(records, a) ==> well_aimed(records, a)
    &&& forall|a: Obs, b: Obs| #[trigger]
        observed(records, a) && #[trigger] observed(records, b) && a.replaces is Some && a.replaces
            == b.replaces ==> a == b
    &&& forall|a: Limit, b: Limit| #[trigger]
        configured(records, a) && #[trigger] configured(records, b) && a.freezer == b.freezer
            && a.effective_at == b.effective_at ==> a == b
}

/// Observations of an archive, each correcting the next, that lead back to the first.
pub open spec fn circular(records: Seq<Entry>, chain: Seq<Obs>) -> bool {
    &&& chain.len() >= 2
    &&& chain[0] == chain.last()
    &&& forall|i: int| 0 <= i < chain.len() ==> observed(records, #[trigger] chain[i])
    &&& forall|i: int|
        0 <= i < chain.len() - 1 ==> (#[trigger] chain[i]).replaces == Some(chain[i + 1].id)
}

proof fn lemma_alone(entry: Entry)
    ensures
        proper(entry) <==> validate::ok_alone(entry),
{
}

proof fn lemma_endless(all: Seq<Obs>, n: nat, k: int)
    requires
        model::first_cycle(all, n) is None,
        0 <= k < n,
    ensures
        !model::endless(all, k),
    decreases n,
{
    if k < n - 1 {
        lemma_endless(all, (n - 1) as nat, k);
    }
}

proof fn lemma_round(records: Seq<Entry>, all: Seq<Obs>, chain: Seq<Obs>, i: int, k: int, n: nat)
    requires
        circular(records, chain),
        forall|obs: Obs| #[trigger] all.contains(obs) <==> observed(records, obs),
        0 <= i < chain.len() - 1,
        0 <= k < all.len(),
        all[k] == chain[i],
    ensures
        model::reaches(all, k, n),
    decreases n,
{
    if n > 0 {
        let next: int = if i + 1 == chain.len() - 1 {
            0
        } else {
            i + 1
        };
        assert(chain[i].replaces == Some(chain[i + 1].id));
        assert(chain[next] == chain[i + 1]);
        assert(observed(records, chain[next]));
        assert(all.contains(chain[next]));
        let j = choose|j: int| 0 <= j < all.len() && all[j] == chain[next];
        lemma_round(records, all, chain, next, j, (n - 1) as nat);
        assert(model::replaces(all, k, j));
    }
}

/// An archive that is accepted is consistent, and its corrections lead nowhere in circles.
pub proof fn accepted_archives_are_consistent(records: Seq<Entry>)
    requires
        model::archive_error(records) is None,
    ensures
        consistent(records),
        forall|chain: Seq<Obs>| !#[trigger] circular(records, chain),
{
    let all = model::observations(records);
    let limits = model::configurations(records);
    validate::lemma_settled(records, records.len());
    laws::lemma_kept(records);
    assert forall|i: int| 0 <= i < records.len() implies proper(#[trigger] records[i]) by {
        lemma_alone(records[i]);
        assert(validate::ok_alone(records[i]));
    }
    assert forall|a: Obs, b: Obs| #[trigger]
        observed(records, a) && #[trigger] observed(records, b) && a.id == b.id implies a == b by {
        laws::lemma_one_record(records, Entry::Observation(a), Entry::Observation(b));
    }
    assert forall|a: Limit, b: Limit| #[trigger]
        configured(records, a) && #[trigger] configured(records, b) && a.id == b.id implies a
        == b by {
        laws::lemma_one_record(records, Entry::Configuration(a), Entry::Configuration(b));
    }
    assert forall|a: Obs| #[trigger] observed(records, a) implies well_aimed(records, a) by {
        reveal(well_aimed);
        assert(all.contains(a));
        let k = choose|k: int| 0 <= k < all.len() && all[k] == a;
        laws::lemma_corrections_sound(all, all.len(), k);
        if a.replaces is Some {
            let j = choose|j: int| 0 <= j < all.len() && (#[trigger] all[j]).id == a.replaces->0;
            assert(all.contains(all[j]));
            assert(observed(records, all[j]));
        }
    }
    assert forall|a: Obs, b: Obs| #[trigger]
        observed(records, a) && #[trigger] observed(records, b) && a.replaces is Some && a.replaces
            == b.replaces implies a == b by {
        assert(all.contains(a) && all.contains(b));
        let j = choose|j: int| 0 <= j < all.len() && all[j] == a;
        let k = choose|k: int| 0 <= k < all.len() && all[k] == b;
        laws::lemma_corrections_sound(all, all.len(), j);
        laws::lemma_corrections_sound(all, all.len(), k);
    }
    assert forall|a: Limit, b: Limit| #[trigger]
        configured(records, a) && #[trigger] configured(records, b) && a.freezer == b.freezer
            && a.effective_at == b.effective_at implies a == b by {
        assert(limits.contains(a) && limits.contains(b));
        let j = choose|j: int| 0 <= j < limits.len() && limits[j] == a;
        let k = choose|k: int| 0 <= k < limits.len() && limits[k] == b;
        laws::lemma_unambiguous(limits, limits.len());
        if j < k {
            assert(!model::same_slot(limits[j], limits[k]));
        } else if k < j {
            assert(!model::same_slot(limits[k], limits[j]));
        }
    }
    assert forall|chain: Seq<Obs>| !#[trigger] circular(records, chain) by {
        if circular(records, chain) {
            assert(observed(records, chain[0]));
            assert(all.contains(chain[0]));
            let k = choose|k: int| 0 <= k < all.len() && all[k] == chain[0];
            assert forall|n: nat| #[trigger] model::reaches(all, k, n) by {
                lemma_round(records, all, chain, 0, k, n);
            }
            lemma_endless(all, all.len(), k);
        }
    }
}

proof fn lemma_ranked(all: Seq<Obs>, rank: spec_fn(Obs) -> nat, k: int, n: nat)
    requires
        forall|a: int, b: int| #[trigger]
            model::replaces(all, a, b) ==> rank(all[b]) < rank(all[a]),
        model::reaches(all, k, n),
        0 <= k < all.len(),
    ensures
        n <= rank(all[k]),
    decreases n,
{
    if n > 0 {
        let j = choose|j: int| #[trigger]
            model::replaces(all, k, j) && model::reaches(all, j, (n - 1) as nat);
        lemma_ranked(all, rank, j, (n - 1) as nat);
    }
}

proof fn lemma_no_correction_fault(all: Seq<Obs>, n: nat)
    requires
        forall|k: int| 0 <= k < n ==> #[trigger] model::correction_fault(all, k) is None,
    ensures
        model::first_correction_fault(all, n) is None,
    decreases n,
{
    if n > 0 {
        lemma_no_correction_fault(all, (n - 1) as nat);
        assert(model::correction_fault(all, n - 1) is None);
    }
}

proof fn lemma_no_cycle(all: Seq<Obs>, n: nat)
    requires
        forall|k: int| 0 <= k < n ==> !#[trigger] model::endless(all, k),
    ensures
        model::first_cycle(all, n) is None,
    decreases n,
{
    if n > 0 {
        lemma_no_cycle(all, (n - 1) as nat);
        assert(!model::endless(all, n - 1));
    }
}

proof fn lemma_no_ambiguity(limits: Seq<Limit>, n: nat)
    requires
        n <= limits.len(),
        forall|a: int, b: int|
            0 <= a < b < limits.len() ==> !model::same_slot(
                #[trigger] limits[a],
                #[trigger] limits[b],
            ),
    ensures
        model::first_ambiguity(limits, n) is None,
    decreases n,
{
    if n > 0 {
        lemma_no_ambiguity(limits, (n - 1) as nat);
    }
}

proof fn lemma_distinct(records: Seq<Entry>)
    ensures
        forall|a: int, b: int|
            0 <= a < b < model::observations(records).len() ==> #[trigger] model::observations(
                records,
            )[a] != #[trigger] model::observations(records)[b],
        forall|a: int, b: int|
            0 <= a < b < model::configurations(records).len() ==> #[trigger] model::configurations(
                records,
            )[a] != #[trigger] model::configurations(records)[b],
{
    validate::lemma_ids_listed(records);
    let all = model::observations(records);
    let limits = model::configurations(records);
    let ids = text::in_order(model::observation_ids(records));
    let names = text::in_order(model::configuration_ids(records));
    assert forall|a: int, b: int| 0 <= a < b < all.len() implies #[trigger] all[a]
        != #[trigger] all[b] by {
        assert(ids.contains(ids[a]) && ids.contains(ids[b]));
        laws::lemma_found_observation(records, ids[a]);
        laws::lemma_found_observation(records, ids[b]);
        assert(all[a].id == ids[a] && all[b].id == ids[b]);
        assert(ids[a] != ids[b]);
    }
    assert forall|a: int, b: int| 0 <= a < b < limits.len() implies #[trigger] limits[a]
        != #[trigger] limits[b] by {
        assert(names.contains(names[a]) && names.contains(names[b]));
        laws::lemma_found_configuration(records, names[a]);
        laws::lemma_found_configuration(records, names[b]);
        assert(limits[a].id == names[a] && limits[b].id == names[b]);
        assert(names[a] != names[b]);
    }
}

/// A consistent archive whose corrections come to an end is accepted.
pub proof fn consistent_archives_are_accepted(records: Seq<Entry>, rank: spec_fn(Obs) -> nat)
    requires
        consistent(records),
        forall|a: Obs, b: Obs| #[trigger]
            observed(records, a) && #[trigger] observed(records, b) && a.replaces == Some(b.id)
                ==> rank(b) < rank(a),
    ensures
        model::archive_error(records) is None,
{
    let all = model::observations(records);
    let limits = model::configurations(records);
    assert forall|i: int| 0 <= i < records.len() implies validate::ok_alone(
        #[trigger] records[i],
    ) by {
        lemma_alone(records[i]);
    }
    assert(validate::settled(records, records.len() as int)) by {
        assert forall|a: int, b: int|
            0 <= a < b < records.len() && validate::same_kind(
                #[trigger] records[a],
                #[trigger] records[b],
            ) && validate::id_of(records[a]) == validate::id_of(records[b]) implies records[a]
            == records[b] by {
            match records[a] {
                Entry::Observation(x) => {
                    let y = records[b]->Observation_0;
                    assert(observed(records, x) && observed(records, y));
                },
                Entry::Configuration(x) => {
                    let y = records[b]->Configuration_0;
                    assert(configured(records, x) && configured(records, y));
                },
            }
        }
    }
    laws::lemma_faultless(records, records.len());
    laws::lemma_kept(records);
    lemma_distinct(records);
    assert forall|k: int| 0 <= k < all.len() implies #[trigger] observed(records, all[k]) by {
        assert(all.contains(all[k]));
    }
    assert forall|k: int| 0 <= k < all.len() implies #[trigger] model::correction_fault(all, k)
        is None by {
        lemma_aims(records, all, k);
    }
    lemma_no_correction_fault(all, all.len());
    assert forall|a: int, b: int| #[trigger] model::replaces(all, a, b) implies rank(all[b]) < rank(
        all[a],
    ) by {
        assert(observed(records, all[a]) && observed(records, all[b]));
    }
    assert forall|k: int| 0 <= k < all.len() implies !#[trigger] model::endless(all, k) by {
        if model::endless(all, k) {
            let n: nat = rank(all[k]) + 1;
            assert(model::reaches(all, k, n));
            lemma_ranked(all, rank, k, n);
        }
    }
    lemma_no_cycle(all, all.len());
    assert forall|a: int, b: int| 0 <= a < b < limits.len() implies !model::same_slot(
        #[trigger] limits[a],
        #[trigger] limits[b],
    ) by {
        assert(limits.contains(limits[a]) && limits.contains(limits[b]));
        assert(configured(records, limits[a]) && configured(records, limits[b]));
    }
    lemma_no_ambiguity(limits, limits.len());
}

proof fn lemma_aims(records: Seq<Entry>, all: Seq<Obs>, k: int)
    requires
        consistent(records),
        all == model::observations(records),
        forall|obs: Obs| #[trigger] all.contains(obs) <==> observed(records, obs),
        forall|a: int, b: int|
            0 <= a < b < all.len() ==> #[trigger] all[a] != #[trigger] all[b],
        0 <= k < all.len(),
    ensures
        model::correction_fault(all, k) is None,
{
    reveal(well_aimed);
    assert(all.contains(all[k]));
    assert(observed(records, all[k]));
    assert(well_aimed(records, all[k]));
    if all[k].replaces is Some {
        let target = all[k].replaces->0;
        let other = choose|other: Obs| #[trigger]
            observed(records, other) && all[k].replaces == Some(other.id) && other.freezer
                == all[k].freezer;
        assert(all.contains(other));
        let t = choose|t: int| 0 <= t < all.len() && all[t] == other;
        assert(all[t].id == target);
        assert forall|j: int|
            0 <= j < all.len() && (#[trigger] all[j]).id == target implies all[j].freezer
            == all[k].freezer by {
            assert(all.contains(all[j]));
            assert(observed(records, all[j]));
        }
        assert forall|m: int| 0 <= m < k implies (#[trigger] all[m]).replaces != Some(target) by {
            assert(all.contains(all[m]));
            assert(observed(records, all[m]));
        }
    }
}

/// A configuration of the freezer of an observation was in effect when it was made.
pub open spec fn in_effect(records: Seq<Entry>, obs: Obs, limit: Limit) -> bool {
    &&& configured(records, limit)
    &&& limit.freezer == obs.freezer
    &&& limit.effective_at <= obs.observed_at
}

pub open spec fn has_limit(records: Seq<Entry>, obs: Obs) -> bool {
    exists|limit: Limit| #[trigger] in_effect(records, obs, limit)
}

/// The latest of the first `n` limits that apply to an observation.
proof fn lemma_latest(limits: Seq<Limit>, obs: Obs, n: nat) -> (found: Option<Limit>)
    requires
        n <= limits.len(),
    ensures
        match found {
            Some(limit) => {
                &&& limits.contains(limit)
                &&& limit.freezer == obs.freezer
                &&& limit.effective_at <= obs.observed_at
                &&& forall|i: int|
                    0 <= i < n && (#[trigger] limits[i]).freezer == obs.freezer
                        && limits[i].effective_at <= obs.observed_at ==> limits[i].effective_at
                        <= limit.effective_at
            },
            None => forall|i: int|
                0 <= i < n && (#[trigger] limits[i]).freezer == obs.freezer
                    ==> limits[i].effective_at > obs.observed_at,
        },
    decreases n,
{
    if n == 0 {
        None
    } else {
        let before = lemma_latest(limits, obs, (n - 1) as nat);
        let last = limits[n - 1];
        assert(limits.contains(last));
        if last.freezer == obs.freezer && last.effective_at <= obs.observed_at && (before is None
            || before->0.effective_at <= last.effective_at) {
            Some(last)
        } else {
            before
        }
    }
}

proof fn lemma_has_limit(records: Seq<Entry>, obs: Obs)
    requires
        model::archive_error(records) is None,
    ensures
        has_limit(records, obs) <==> model::is_limited(model::configurations(records), obs),
{
    let limits = model::configurations(records);
    laws::lemma_kept(records);
    if has_limit(records, obs) {
        let some = choose|limit: Limit| #[trigger] in_effect(records, obs, limit);
        assert(limits.contains(some));
        let i = choose|i: int| 0 <= i < limits.len() && limits[i] == some;
        let found = lemma_latest(limits, obs, limits.len());
        assert(limits[i].freezer == obs.freezer);
        let limit = found->0;
        assert forall|other: Limit| #[trigger]
            limits.contains(other) && other.freezer == obs.freezer && other.effective_at
                <= obs.observed_at implies other.effective_at <= limit.effective_at by {
            let j = choose|j: int| 0 <= j < limits.len() && limits[j] == other;
            assert(limits[j].freezer == obs.freezer);
        }
        assert(model::in_force(limits, obs, limit));
    }
    if model::is_limited(limits, obs) {
        let limit = choose|limit: Limit| #[trigger] model::in_force(limits, obs, limit);
        assert(in_effect(records, obs, limit));
    }
}

proof fn lemma_none_unlimited(all: Seq<Obs>, limits: Seq<Limit>, n: nat, k: int)
    requires
        model::first_unlimited(all, limits, n) is None,
        0 <= k < n,
        model::stands(all, all[k]),
    ensures
        model::is_limited(limits, all[k]),
    decreases n,
{
    if k < n - 1 {
        lemma_none_unlimited(all, limits, (n - 1) as nat, k);
    }
}

/// Incidents are told of an accepted archive when each observation that stands was made
/// while a configuration of its freezer was in effect, and not otherwise.
pub proof fn standing_observations_need_limits(records: Seq<Entry>)
    requires
        model::archive_error(records) is None,
    ensures
        reduce::reference_error(records) is None <==> forall|obs: Obs| #[trigger]
            excursions::unreplaced(records, obs) ==> has_limit(records, obs),
{
    let all = model::observations(records);
    let limits = model::configurations(records);
    laws::reducers_agree(records);
    laws::lemma_kept(records);
    if reduce::reference_error(records) is None {
        assert forall|obs: Obs| #[trigger] excursions::unreplaced(records, obs) implies has_limit(
            records,
            obs,
        ) by {
            excursions::lemma_stands(records, obs);
            let k = choose|k: int| 0 <= k < all.len() && all[k] == obs;
            lemma_none_unlimited(all, limits, all.len(), k);
            lemma_has_limit(records, obs);
        }
    }
    if forall|obs: Obs| #[trigger]
        excursions::unreplaced(records, obs) ==> has_limit(records, obs) {
        assert forall|k: int|
            0 <= k < all.len() && model::stands(all, #[trigger] all[k]) implies model::is_limited(
            limits,
            all[k],
        ) by {
            excursions::lemma_stands(records, all[k]);
            lemma_has_limit(records, all[k]);
            assert(excursions::unreplaced(records, all[k]));
        }
        laws::lemma_limited(all, limits, all.len());
    }
}

} // verus!
