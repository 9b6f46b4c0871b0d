//! What holds of every archive.

use vstd::prelude::*;
use crate::coldchain::model;
use crate::coldchain::model::{Entry, Episode, Limit, Obs, Reading};
use crate::coldchain::reduce;
use crate::coldchain::validate;
use crate::text;

verus! {

/// Observations from the earliest to the latest.
pub open spec fn chronological(timeline: Seq<Obs>) -> bool {
    forall|i: int, j: int|
        0 <= i < j < timeline.len() ==> model::earlier(
            #[trigger] timeline[i],
            #[trigger] timeline[j],
        )
}

proof fn lemma_earlier_transitive(a: Obs, b: Obs, c: Obs)
    requires
        model::earlier(a, b),
        model::earlier(b, c),
    ensures
        model::earlier(a, c),
{
    if a.observed_at == b.observed_at && b.observed_at == c.observed_at {
        text::lemma_text_transitive(a.id, b.id, c.id);
    }
}

/// Where an observation goes in a timeline.
proof fn lemma_inserted(timeline: Seq<Obs>, obs: Obs, n: int) -> (place: int)
    requires
        chronological(timeline),
        0 <= n <= timeline.len(),
        forall|i: int| 0 <= i < timeline.len() ==> (#[trigger] timeline[i]).id != obs.id,
        forall|i: int| n <= i < timeline.len() ==> model::earlier(obs, #[trigger] timeline[i]),
    ensures
        0 <= place <= timeline.len(),
        chronological(timeline.insert(place, obs)),
    decreases n,
{
    if n > 0 && !model::earlier(timeline[n - 1], obs) {
        text::lemma_text_total(timeline[n - 1].id, obs.id);
        assert forall|i: int| n - 1 <= i < timeline.len() implies model::earlier(
            obs,
            #[trigger] timeline[i],
        ) by {
        }
        lemma_inserted(timeline, obs, n - 1)
    } else {
        let longer = timeline.insert(n, obs);
        assert forall|i: int, j: int| 0 <= i < j < longer.len() implies model::earlier(
            #[trigger] longer[i],
            #[trigger] longer[j],
        ) by {
            if j == n {
                if i < n - 1 {
                    lemma_earlier_transitive(timeline[i], timeline[n - 1], obs);
                }
            } else if i == n {
                assert(longer[j] == timeline[j - 1]);
            } else {
                let x = if i < n {
                    i
                } else {
                    i - 1
                };
                let y = if j < n {
                    j
                } else {
                    j - 1
                };
                assert(model::earlier(timeline[x], timeline[y]));
            }
        }
        n
    }
}

/// The kept ones among the first `n` observations can be put in order of time.
proof fn lemma_arranged(all: Seq<Obs>, keep: spec_fn(Obs) -> bool, n: nat) -> (timeline: Seq<Obs>)
    requires
        validate::listed(all),
        n <= all.len(),
    ensures
        chronological(timeline),
        forall|obs: Obs| #[trigger] timeline.contains(obs) <==> all.take(n as int).contains(obs) && keep(
            obs,
        ),
    decreases n,
{
    if n == 0 {
        Seq::empty()
    } else {
        let rest = lemma_arranged(all, keep, (n - 1) as nat);
        let last = all[n - 1];
        let front = all.take(n - 1);
        let whole = all.take(n as int);
        assert(whole =~= front.push(last));
        assert forall|obs: Obs| #[trigger] whole.contains(obs) <==> front.contains(obs) || obs
            == last by {
            if front.contains(obs) {
                let k = choose|k: int| 0 <= k < front.len() && front[k] == obs;
                assert(whole[k] == obs);
            }
            if whole.contains(obs) {
                let k = choose|k: int| 0 <= k < whole.len() && whole[k] == obs;
                if k < n - 1 {
                    assert(front[k] == obs);
                }
            }
            assert(whole[n - 1] == last);
        }
        if keep(last) {
            assert forall|i: int| 0 <= i < rest.len() implies (#[trigger] rest[i]).id != last.id by {
                assert(rest.contains(rest[i]));
                let k = choose|k: int| 0 <= k < front.len() && front[k] == rest[i];
                assert(text::text_lt(all[k].id, all[n - 1].id));
            }
            let place = lemma_inserted(rest, last, rest.len() as int);
            let longer = rest.insert(place, last);
            assert forall|obs: Obs| #[trigger] longer.contains(obs) <==> rest.contains(obs) || obs
                == last by {
                if rest.contains(obs) {
                    let k = choose|k: int| 0 <= k < rest.len() && rest[k] == obs;
                    assert(longer[if k < place {
                        k
                    } else {
                        k + 1
                    }] == obs);
                }
                if longer.contains(obs) {
                    let k = choose|k: int| 0 <= k < longer.len() && longer[k] == obs;
                    if k < place {
                        assert(rest[k] == obs);
                    } else if k > place {
                        assert(rest[k - 1] == obs);
                    }
                }
                assert(longer[place] == last);
            }
            longer
        } else {
            rest
        }
    }
}

/// Every freezer has its timeline.
pub proof fn lemma_timeline(all: Seq<Obs>, freezer: Seq<char>)
    requires
        validate::listed(all),
    ensures
        model::is_timeline(all, freezer, model::timeline(all, freezer)),
{
    let keep = |obs: Obs| model::stands(all, obs) && obs.freezer == freezer;
    let timeline = lemma_arranged(all, keep, all.len());
    assert(all.take(all.len() as int) =~= all);
    assert(model::is_timeline(all, freezer, timeline));
}

/// The freezers can be listed.
pub proof fn lemma_freezers_listed(all: Seq<Obs>)
    ensures
        text::lists(text::in_order(model::freezer_ids(all)), model::freezer_ids(all)),
{
    let names = all.map_values(|obs: Obs| obs.freezer);
    let ids = model::freezer_ids(all);
    vstd::seq_lib::seq_to_set_is_finite(names);
    assert forall|id: Seq<char>| ids.contains(id) implies names.to_set().contains(id) by {
        let obs = choose|obs: Obs| #[trigger] model::stands(all, obs) && obs.freezer == id;
        let k = choose|k: int| 0 <= k < all.len() && all[k] == obs;
        assert(names[k] == id);
    }
    vstd::set_lib::lemma_set_subset_finite(names.to_set(), ids);
    text::lemma_listed(ids);
}

/// In an archive without faults the identities ascend, and no two limits of a
/// freezer take effect at once.
pub proof fn lemma_in_good_order(records: Seq<Entry>)
    requires
        model::archive_error(records) is None,
    ensures
        validate::listed(model::observations(records)),
        validate::unambiguous(model::configurations(records)),
{
    let all = model::observations(records);
    let limits = model::configurations(records);
    validate::lemma_ids_listed(records);
    validate::lemma_settled(records, records.len());
    let ids = text::in_order(model::observation_ids(records));
    assert forall|a: int, b: int| 0 <= a < b < all.len() implies text::text_lt(
        (#[trigger] all[a]).id,
        (#[trigger] all[b]).id,
    ) by {
        assert(ids.contains(ids[a]) && ids.contains(ids[b]));
        let i = choose|i: int|
            0 <= i < records.len() && model::observation_id(#[trigger] records[i]) == Some(ids[a]);
        let j = choose|j: int|
            0 <= j < records.len() && model::observation_id(#[trigger] records[j]) == Some(ids[b]);
        assert(all[a].id == ids[a]);
        assert(all[b].id == ids[b]);
    }
    lemma_unambiguous(limits, limits.len());
}

pub proof fn lemma_unambiguous(limits: Seq<Limit>, n: nat)
    requires
        n <= limits.len(),
        model::first_ambiguity(limits, n) is None,
    ensures
        forall|a: int, b: int|
            0 <= a < b < n ==> !model::same_slot(#[trigger] limits[a], #[trigger] limits[b]),
    decreases n,
{
    if n > 0 {
        lemma_unambiguous(limits, (n - 1) as nat);
    }
}

proof fn lemma_fault_free(all: Seq<Obs>, limits: Seq<Limit>, n: nat)
    requires
        n <= text::in_order(model::freezer_ids(all)).len(),
        forall|k: int|
            0 <= k < n ==> model::freezer_fault(
                all,
                limits,
                #[trigger] text::in_order(model::freezer_ids(all))[k],
            ) is None,
    ensures
        model::first_freezer_fault(all, limits, n) is None,
    decreases n,
{
    if n > 0 {
        lemma_fault_free(all, limits, (n - 1) as nat);
    }
}

pub proof fn lemma_freezer_sound(all: Seq<Obs>, limits: Seq<Limit>, n: nat, k: int)
    requires
        model::first_freezer_fault(all, limits, n) is None,
        0 <= k < n,
    ensures
        model::freezer_fault(all, limits, text::in_order(model::freezer_ids(all))[k]) is None,
    decreases n,
{
    if k < n - 1 {
        lemma_freezer_sound(all, limits, (n - 1) as nat, k);
    }
}

pub proof fn lemma_gapless(timeline: Seq<Obs>, limits: Seq<Limit>, n: nat, k: int)
    requires
        model::first_gap(timeline, limits, n) is None,
        0 <= k < n,
    ensures
        model::is_limited(limits, timeline[k]),
    decreases n,
{
    if k < n - 1 {
        lemma_gapless(timeline, limits, (n - 1) as nat, k);
    }
}

pub proof fn lemma_limited(all: Seq<Obs>, limits: Seq<Limit>, n: nat)
    requires
        n <= all.len(),
        forall|k: int|
            0 <= k < n && model::stands(all, #[trigger] all[k]) ==> model::is_limited(
                limits,
                all[k],
            ),
    ensures
        model::first_unlimited(all, limits, n) is None,
    decreases n,
{
    if n > 0 {
        lemma_limited(all, limits, (n - 1) as nat);
    }
}

/// Both ways of telling the incidents accept the same archives, and a complete
/// index is enough for the second.
pub proof fn reducers_agree(records: Seq<Entry>)
    ensures
        (reduce::reference_error(records) is None) == (reduce::candidate_error(
            records,
            reduce::accepted_count(records),
        ) is None),
{
    if model::archive_error(records) is None {
        let all = model::observations(records);
        let limits = model::configurations(records);
        let ids = text::in_order(model::freezer_ids(all));
        lemma_in_good_order(records);
        lemma_freezers_listed(all);
        if reduce::candidate_fault(all, limits) is None {
            assert forall|k: int| 0 <= k < ids.len() implies model::freezer_fault(
                all,
                limits,
                #[trigger] ids[k],
            ) is None by {
                lemma_timeline(all, ids[k]);
                reduce::lemma_timeline_limited(all, limits, ids[k]);
                assert(ids.contains(ids[k]));
                let obs = choose|obs: Obs| #[trigger]
                    model::stands(all, obs) && obs.freezer == ids[k];
                let j = choose|j: int| 0 <= j < all.len() && all[j] == obs;
                reduce::lemma_all_limited(all, limits, all.len(), j);
                let limit = choose|limit: Limit| #[trigger] model::in_force(limits, obs, limit);
                let m = choose|m: int| 0 <= m < limits.len() && limits[m] == limit;
                assert(limits[m].freezer == ids[k]);
            }
            lemma_fault_free(all, limits, ids.len());
        }
        if reduce::reference_fault(all, limits) is None {
            assert forall|k: int|
                0 <= k < all.len() && model::stands(all, #[trigger] all[k]) implies model::is_limited(
                limits,
                all[k],
            ) by {
                let id = all[k].freezer;
                assert(model::freezer_ids(all).contains(id));
                assert(ids.contains(id));
                let f = choose|f: int| 0 <= f < ids.len() && ids[f] == id;
                lemma_freezer_sound(all, limits, ids.len(), f);
                lemma_timeline(all, id);
                let timeline = model::timeline(all, id);
                assert(timeline.contains(all[k]));
                let t = choose|t: int| 0 <= t < timeline.len() && timeline[t] == all[k];
                lemma_gapless(timeline, limits, timeline.len(), t);
            }
            lemma_limited(all, limits, all.len());
        }
    }
}

/// An incident is open exactly when the last one has not been closed, and none
/// before the last is open.
pub proof fn only_the_last_incident_is_open(readings: Seq<Reading>)
    ensures
        ({
            let story = model::story_of(readings);
            let n = story.incidents.len();
            &&& story.open == (n > 0 && story.incidents[n - 1].closed is None)
            &&& forall|i: int|
                0 <= i < n - 1 ==> (#[trigger] story.incidents[i]).closed is Some
        }),
    decreases readings.len(),
{
    if readings.len() > 0 {
        only_the_last_incident_is_open(readings.drop_last());
    }
}

/// Readings from the earliest to the latest.
pub open spec fn in_time(readings: Seq<Reading>) -> bool {
    forall|i: int, j: int|
        0 <= i < j < readings.len() ==> (#[trigger] readings[i]).at <= (#[trigger] readings[j]).at
}

/// Incidents last ten minutes at least, and five minutes pass before the next.
pub open spec fn spaced(incidents: Seq<Episode>) -> bool {
    &&& forall|i: int|
        0 <= i < incidents.len() ==> ((#[trigger] incidents[i]).closed matches Some(closed)
            ==> closed.at - incidents[i].opened.at >= model::CLOSING_SECONDS)
    &&& forall|i: int|
        1 <= i < incidents.len() ==> (#[trigger] incidents[i]).opened.at - incidents[i
            - 1].closed->0.at >= model::OPENING_SECONDS
}

/// When the last incident opened or closed.
spec fn last_turn(incidents: Seq<Episode>) -> i64 {
    match incidents.last().closed {
        Some(closed) => closed.at,
        None => incidents.last().opened.at,
    }
}

proof fn lemma_spaced(readings: Seq<Reading>)
    requires
        in_time(readings),
    ensures
        ({
            let story = model::story_of(readings);
            &&& spaced(story.incidents)
            &&& story.incidents.len() > 0 ==> readings.len() > 0 && last_turn(story.incidents)
                <= readings.last().at && forall|k: int|
                0 <= k < story.run.len() ==> last_turn(story.incidents) <= (
                #[trigger] story.run[k]).at
        }),
    decreases readings.len(),
{
    if readings.len() > 0 {
        let front = readings.drop_last();
        assert forall|i: int, j: int| 0 <= i < j < front.len() implies (#[trigger] front[i]).at <= (
        #[trigger] front[j]).at by {
            assert(readings[i].at <= readings[j].at);
        }
        lemma_spaced(front);
        only_the_last_incident_is_open(front);
        if front.len() > 0 {
            assert(readings[readings.len() - 2].at <= readings[readings.len() - 1].at);
        }
        let before = model::story_of(front);
        let after = model::story_of(readings);
        let n = before.incidents.len();
        if after.incidents.len() == n && n > 0 {
            assert(after.incidents =~= before.incidents.update(n - 1, after.incidents[n - 1]));
        }
        assert forall|i: int| 0 <= i < after.incidents.len() implies ((
        #[trigger] after.incidents[i]).closed matches Some(closed) ==> closed.at
            - after.incidents[i].opened.at >= model::CLOSING_SECONDS) by {
            if i < n - 1 {
                assert(after.incidents[i] == before.incidents[i]);
            }
        }
        assert forall|i: int| 1 <= i < after.incidents.len() implies (
        #[trigger] after.incidents[i]).opened.at - after.incidents[i - 1].closed->0.at
            >= model::OPENING_SECONDS by {
            if i < n {
                assert(before.incidents[i].opened == after.incidents[i].opened);
                assert(after.incidents[i - 1] == before.incidents[i - 1]);
            }
        }
    }
}

/// Every incident of a freezer lasts ten minutes at least before it is closed,
/// and five minutes pass at least before the next one opens.
pub proof fn incidents_are_spaced(all: Seq<Obs>, limits: Seq<Limit>, freezer: Seq<char>)
    requires
        validate::listed(all),
    ensures
        spaced(model::freezer_of(all, limits, freezer).incidents),
{
    let timeline = model::timeline(all, freezer);
    let readings = model::readings_of(limits, timeline);
    lemma_timeline(all, freezer);
    assert forall|i: int, j: int| 0 <= i < j < readings.len() implies (#[trigger] readings[i]).at
        <= (#[trigger] readings[j]).at by {
        assert(model::earlier(timeline[i], timeline[j]));
    }
    lemma_spaced(readings);
}

/// The same records, in whatever order and however often.
pub open spec fn same_records(a: Seq<Entry>, b: Seq<Entry>) -> bool {
    forall|entry: Entry| #[trigger] a.contains(entry) <==> b.contains(entry)
}

pub proof fn lemma_faultless(records: Seq<Entry>, n: nat)
    requires
        n <= records.len(),
        validate::settled(records, n as int),
        forall|i: int| 0 <= i < n ==> validate::ok_alone(#[trigger] records[i]),
    ensures
        model::first_record_fault(records, n) is None,
    decreases n,
{
    if n > 0 {
        lemma_faultless(records, (n - 1) as nat);
        assert(validate::ok_alone(records[n - 1]));
    }
}

proof fn lemma_same_kept(a: Seq<Entry>, b: Seq<Entry>)
    requires
        same_records(a, b),
        model::first_record_fault(a, a.len()) is None,
    ensures
        model::first_record_fault(b, b.len()) is None,
        model::observations(a) == model::observations(b),
        model::configurations(a) == model::configurations(b),
{
    validate::lemma_settled(a, a.len());
    assert forall|i: int| 0 <= i < b.len() implies a.contains(#[trigger] b[i]) by {
        assert(b.contains(b[i]));
    }
    assert forall|i: int| 0 <= i < a.len() implies b.contains(#[trigger] a[i]) by {
        assert(a.contains(a[i]));
    }
    assert forall|i: int| 0 <= i < b.len() implies validate::ok_alone(#[trigger] b[i]) by {
        assert(a.contains(b[i]));
        let k = choose|k: int| 0 <= k < a.len() && a[k] == b[i];
        assert(validate::ok_alone(a[k]));
    }
    assert(validate::settled(b, b.len() as int)) by {
        assert forall|i: int, j: int|
            0 <= i < j < b.len() && validate::same_kind(#[trigger] b[i], #[trigger] b[j])
                && validate::id_of(b[i]) == validate::id_of(b[j]) implies b[i] == b[j] by {
            assert(a.contains(b[i]) && a.contains(b[j]));
            let p = choose|p: int| 0 <= p < a.len() && a[p] == b[i];
            let q = choose|q: int| 0 <= q < a.len() && a[q] == b[j];
            if p < q {
                assert(validate::same_kind(a[p], a[q]));
            } else if q < p {
                assert(validate::same_kind(a[q], a[p]));
            }
        }
    }
    lemma_faultless(b, b.len());
    assert(model::observation_ids(a) =~= model::observation_ids(b)) by {
        assert forall|id: Seq<char>| #[trigger] model::observation_ids(a).contains(id)
            <==> model::observation_ids(b).contains(id) by {
            if model::observation_ids(a).contains(id) {
                let i = choose|i: int|
                    0 <= i < a.len() && model::observation_id(#[trigger] a[i]) == Some(id);
                assert(b.contains(a[i]));
                let j = choose|j: int| 0 <= j < b.len() && b[j] == a[i];
                assert(model::observation_id(b[j]) == Some(id));
            }
            if model::observation_ids(b).contains(id) {
                let i = choose|i: int|
                    0 <= i < b.len() && model::observation_id(#[trigger] b[i]) == Some(id);
                assert(a.contains(b[i]));
                let j = choose|j: int| 0 <= j < a.len() && a[j] == b[i];
                assert(model::observation_id(a[j]) == Some(id));
            }
        }
    }
    assert(model::configuration_ids(a) =~= model::configuration_ids(b)) by {
        assert forall|id: Seq<char>| #[trigger] model::configuration_ids(a).contains(id)
            <==> model::configuration_ids(b).contains(id) by {
            if model::configuration_ids(a).contains(id) {
                let i = choose|i: int|
                    0 <= i < a.len() && model::configuration_id(#[trigger] a[i]) == Some(id);
                assert(b.contains(a[i]));
                let j = choose|j: int| 0 <= j < b.len() && b[j] == a[i];
                assert(model::configuration_id(b[j]) == Some(id));
            }
            if model::configuration_ids(b).contains(id) {
                let i = choose|i: int|
                    0 <= i < b.len() && model::configuration_id(#[trigger] b[i]) == Some(id);
                assert(a.contains(b[i]));
                let j = choose|j: int| 0 <= j < a.len() && a[j] == b[i];
                assert(model::configuration_id(a[j]) == Some(id));
            }
        }
    }
    validate::lemma_ids_listed(a);
    let ids = text::in_order(model::observation_ids(a));
    assert forall|k: int| 0 <= k < ids.len() implies model::observation_with(a, #[trigger] ids[k])
        == model::observation_with(b, ids[k]) by {
        assert(ids.contains(ids[k]));
        lemma_found_observation(a, ids[k]);
        lemma_found_observation(b, ids[k]);
        lemma_one_record(
            a,
            Entry::Observation(model::observation_with(a, ids[k])),
            Entry::Observation(model::observation_with(b, ids[k])),
        );
    }
    assert(model::observations(a) =~= model::observations(b));
    let names = text::in_order(model::configuration_ids(a));
    assert forall|k: int| 0 <= k < names.len() implies model::configuration_with(
        a,
        #[trigger] names[k],
    ) == model::configuration_with(b, names[k]) by {
        assert(names.contains(names[k]));
        lemma_found_configuration(a, names[k]);
        lemma_found_configuration(b, names[k]);
        lemma_one_record(
            a,
            Entry::Configuration(model::configuration_with(a, names[k])),
            Entry::Configuration(model::configuration_with(b, names[k])),
        );
    }
    assert(model::configurations(a) =~= model::configurations(b));
}

/// The observation with an identity is among the records.
pub proof fn lemma_found_observation(records: Seq<Entry>, id: Seq<char>)
    requires
        model::observation_ids(records).contains(id),
    ensures
        records.contains(Entry::Observation(model::observation_with(records, id))),
        model::observation_with(records, id).id == id,
{
    let i = choose|i: int|
        0 <= i < records.len() && model::observation_id(#[trigger] records[i]) == Some(id);
    assert(records.contains(records[i]));
}

pub proof fn lemma_found_configuration(records: Seq<Entry>, id: Seq<char>)
    requires
        model::configuration_ids(records).contains(id),
    ensures
        records.contains(Entry::Configuration(model::configuration_with(records, id))),
        model::configuration_with(records, id).id == id,
{
    let i = choose|i: int|
        0 <= i < records.len() && model::configuration_id(#[trigger] records[i]) == Some(id);
    assert(records.contains(records[i]));
}

/// Records of one kind and identity are the same record.
pub proof fn lemma_one_record(records: Seq<Entry>, x: Entry, y: Entry)
    requires
        validate::settled(records, records.len() as int),
        records.contains(x),
        records.contains(y),
        validate::same_kind(x, y),
        validate::id_of(x) == validate::id_of(y),
    ensures
        x == y,
{
    let p = choose|p: int| 0 <= p < records.len() && records[p] == x;
    let q = choose|q: int| 0 <= q < records.len() && records[q] == y;
    if p < q {
        assert(validate::same_kind(records[p], records[q]));
    } else if q < p {
        assert(validate::same_kind(records[q], records[p]));
    }
}

/// Neither the order of the records nor their repetition matters: the same
/// records are accepted together, and tell the same incidents.
pub proof fn order_and_repetition_do_not_matter(a: Seq<Entry>, b: Seq<Entry>)
    requires
        same_records(a, b),
    ensures
        (model::archive_error(a) is None) == (model::archive_error(b) is None),
        (reduce::reference_error(a) is None) == (reduce::reference_error(b) is None),
        reduce::reference_error(a) is None ==> reduce::repaired(a) == reduce::repaired(b),
{
    if model::first_record_fault(a, a.len()) is None {
        lemma_same_kept(a, b);
    } else if model::first_record_fault(b, b.len()) is None {
        lemma_same_kept(b, a);
    }
}

pub open spec fn freezer_id_of(entry: Entry) -> Seq<char> {
    match entry {
        Entry::Observation(obs) => obs.freezer,
        Entry::Configuration(limit) => limit.freezer,
    }
}

/// The same records of one freezer.
pub open spec fn same_for(a: Seq<Entry>, b: Seq<Entry>, freezer: Seq<char>) -> bool {
    forall|entry: Entry|
        freezer_id_of(entry) == freezer ==> (#[trigger] a.contains(entry) <==> b.contains(entry))
}

/// What an archive keeps is what it was given.
pub proof fn lemma_kept(records: Seq<Entry>)
    requires
        model::first_record_fault(records, records.len()) is None,
    ensures
        forall|obs: Obs| #[trigger] model::observations(records).contains(obs)
            <==> records.contains(Entry::Observation(obs)),
        forall|limit: Limit| #[trigger] model::configurations(records).contains(limit)
            <==> records.contains(Entry::Configuration(limit)),
{
    let all = model::observations(records);
    let limits = model::configurations(records);
    validate::lemma_settled(records, records.len());
    validate::lemma_ids_listed(records);
    let ids = text::in_order(model::observation_ids(records));
    let names = text::in_order(model::configuration_ids(records));
    assert forall|obs: Obs| #[trigger] all.contains(obs) <==> records.contains(
        Entry::Observation(obs),
    ) by {
        if all.contains(obs) {
            let k = choose|k: int| 0 <= k < all.len() && all[k] == obs;
            assert(ids.contains(ids[k]));
            lemma_found_observation(records, ids[k]);
        }
        if records.contains(Entry::Observation(obs)) {
            let i = choose|i: int| 0 <= i < records.len() && records[i] == Entry::Observation(obs);
            assert(model::observation_id(records[i]) == Some(obs.id));
            assert(model::observation_ids(records).contains(obs.id));
            assert(ids.contains(obs.id));
            let k = choose|k: int| 0 <= k < ids.len() && ids[k] == obs.id;
            lemma_found_observation(records, obs.id);
            lemma_one_record(
                records,
                Entry::Observation(obs),
                Entry::Observation(model::observation_with(records, obs.id)),
            );
            assert(all[k] == obs);
        }
    }
    assert forall|limit: Limit| #[trigger] limits.contains(limit) <==> records.contains(
        Entry::Configuration(limit),
    ) by {
        if limits.contains(limit) {
            let k = choose|k: int| 0 <= k < limits.len() && limits[k] == limit;
            assert(names.contains(names[k]));
            lemma_found_configuration(records, names[k]);
        }
        if records.contains(Entry::Configuration(limit)) {
            let i = choose|i: int|
                0 <= i < records.len() && records[i] == Entry::Configuration(limit);
            assert(model::configuration_id(records[i]) == Some(limit.id));
            assert(model::configuration_ids(records).contains(limit.id));
            assert(names.contains(limit.id));
            let k = choose|k: int| 0 <= k < names.len() && names[k] == limit.id;
            lemma_found_configuration(records, limit.id);
            lemma_one_record(
                records,
                Entry::Configuration(limit),
                Entry::Configuration(model::configuration_with(records, limit.id)),
            );
            assert(limits[k] == limit);
        }
    }
}

pub proof fn lemma_corrections_sound(all: Seq<Obs>, n: nat, k: int)
    requires
        n <= all.len(),
        model::first_correction_fault(all, n) is None,
        0 <= k < n,
    ensures
        model::correction_fault(all, k) is None,
    decreases n,
{
    if k < n - 1 {
        lemma_corrections_sound(all, (n - 1) as nat, k);
    }
}

/// A correction is of the freezer of what it replaces.
proof fn lemma_stands_within(a: Seq<Entry>, b: Seq<Entry>, obs: Obs)
    requires
        model::archive_error(a) is None,
        model::archive_error(b) is None,
        same_for(a, b, obs.freezer),
        model::stands(model::observations(a), obs),
    ensures
        model::stands(model::observations(b), obs),
{
    let all_a = model::observations(a);
    let all_b = model::observations(b);
    lemma_kept(a);
    lemma_kept(b);
    lemma_in_good_order(b);
    assert(all_a.contains(obs));
    assert(freezer_id_of(Entry::Observation(obs)) == obs.freezer);
    assert(a.contains(Entry::Observation(obs)));
    assert(all_b.contains(obs));
    assert forall|m: int| 0 <= m < all_b.len() implies (#[trigger] all_b[m]).replaces != Some(
        obs.id,
    ) by {
        if all_b[m].replaces == Some(obs.id) {
            lemma_corrections_sound(all_b, all_b.len(), m);
            let j = choose|j: int| 0 <= j < all_b.len() && all_b[j] == obs;
            assert(all_b[j].id == obs.id);
            assert(all_b[m].freezer == obs.freezer);
            assert(all_b.contains(all_b[m]));
            assert(freezer_id_of(Entry::Observation(all_b[m])) == obs.freezer);
            assert(a.contains(Entry::Observation(all_b[m])));
            assert(all_a.contains(all_b[m]));
            let q = choose|q: int| 0 <= q < all_a.len() && all_a[q] == all_b[m];
            assert(all_a[q].replaces == Some(obs.id));
        }
    }
}

proof fn lemma_force_within(a: Seq<Entry>, b: Seq<Entry>, obs: Obs, limit: Limit)
    requires
        model::archive_error(a) is None,
        model::archive_error(b) is None,
        same_for(a, b, obs.freezer),
        model::in_force(model::configurations(a), obs, limit),
    ensures
        model::in_force(model::configurations(b), obs, limit),
{
    let limits_a = model::configurations(a);
    let limits_b = model::configurations(b);
    lemma_kept(a);
    lemma_kept(b);
    assert(limits_a.contains(limit));
    assert(freezer_id_of(Entry::Configuration(limit)) == obs.freezer);
    assert(a.contains(Entry::Configuration(limit)));
    assert(limits_b.contains(limit));
    assert forall|other: Limit| #[trigger]
        limits_b.contains(other) && other.freezer == obs.freezer && other.effective_at
            <= obs.observed_at implies other.effective_at <= limit.effective_at by {
        assert(freezer_id_of(Entry::Configuration(other)) == obs.freezer);
        assert(b.contains(Entry::Configuration(other)));
        assert(a.contains(Entry::Configuration(other)));
        assert(limits_a.contains(other));
    }
}

/// A freezer's incidents follow from its own records: whatever else changes in
/// an archive, by corrections, backdated limits or otherwise, they stay.
pub proof fn freezers_do_not_affect_each_other(a: Seq<Entry>, b: Seq<Entry>, freezer: Seq<char>)
    requires
        reduce::reference_error(a) is None,
        reduce::reference_error(b) is None,
        same_for(a, b, freezer),
    ensures
        model::freezer_of(model::observations(a), model::configurations(a), freezer)
            == model::freezer_of(model::observations(b), model::configurations(b), freezer),
        model::freezer_ids(model::observations(a)).contains(freezer) == model::freezer_ids(
            model::observations(b),
        ).contains(freezer),
{
    let all_a = model::observations(a);
    let all_b = model::observations(b);
    let limits_a = model::configurations(a);
    let limits_b = model::configurations(b);
    lemma_in_good_order(a);
    lemma_in_good_order(b);
    lemma_timeline(all_a, freezer);
    lemma_timeline(all_b, freezer);
    let ta = model::timeline(all_a, freezer);
    let tb = model::timeline(all_b, freezer);
    assert forall|obs: Obs| #[trigger] ta.contains(obs) <==> tb.contains(obs) by {
        if ta.contains(obs) {
            lemma_stands_within(a, b, obs);
        }
        if tb.contains(obs) {
            lemma_stands_within(b, a, obs);
        }
    }
    reduce::lemma_timeline_unique(ta, tb);
    reducers_agree(a);
    reducers_agree(b);
    assert forall|i: int| 0 <= i < ta.len() implies model::reading_of(limits_a, #[trigger] ta[i])
        == model::reading_of(limits_b, ta[i]) by {
        let obs = ta[i];
        assert(ta.contains(obs));
        let k = choose|k: int| 0 <= k < all_a.len() && all_a[k] == obs;
        reduce::lemma_all_limited(all_a, limits_a, all_a.len(), k);
        let limit = model::limit_of(limits_a, obs);
        assert(model::in_force(limits_a, obs, limit));
        lemma_force_within(a, b, obs, limit);
        reduce::lemma_one_in_force(limits_b, obs, limit, model::limit_of(limits_b, obs));
    }
    assert(model::readings_of(limits_a, ta) =~= model::readings_of(limits_b, tb));
    if model::freezer_ids(all_a).contains(freezer) {
        let obs = choose|obs: Obs| #[trigger] model::stands(all_a, obs) && obs.freezer == freezer;
        lemma_stands_within(a, b, obs);
    }
    if model::freezer_ids(all_b).contains(freezer) {
        let obs = choose|obs: Obs| #[trigger] model::stands(all_b, obs) && obs.freezer == freezer;
        lemma_stands_within(b, a, obs);
    }
}

} // verus!
