//! When incidents open and close, told by the temperatures that stand.

use vstd::prelude::*;
use crate::coldchain::laws;
use crate::coldchain::model;
use crate::coldchain::model::{Entry, Episode, Limit, Obs, Reading, Story, Turn};
use crate::coldchain::reduce;
use crate::text;

verus! {

/// Readings `s` to `e` are all outside, or all inside, and lie some seconds apart.
pub open spec fn stretch(
    readings: Seq<Reading>,
    s: int,
    e: int,
    outside: bool,
    seconds: int,
) -> bool {
    &&& 0 <= s <= e < readings.len()
    &&& readings[e].at - readings[s].at >= seconds
    &&& forall|k: int| s <= k <= e ==> (#[trigger] readings[k]).outside == outside
}

/// How long readings must be outside to open an incident, and inside to close one.
pub open spec fn patience(outside: bool) -> int {
    if outside {
        300
    } else {
        600
    }
}

pub open spec fn in_time(readings: Seq<Reading>) -> bool {
    forall|i: int, j: int|
        0 <= i <= j < readings.len() ==> (#[trigger] readings[i]).at <= (
        #[trigger] readings[j]).at
}

spec fn after(readings: Seq<Reading>, n: int) -> Story {
    model::story_of(readings.take(n))
}

proof fn lemma_after(readings: Seq<Reading>, n: int)
    requires
        0 <= n < readings.len(),
    ensures
        after(readings, n + 1) == model::told(after(readings, n), readings[n]),
{
    assert(readings.take(n + 1).drop_last() =~= readings.take(n));
    assert(readings.take(n + 1).last() == readings[n]);
}

/// What a run is made of.
proof fn lemma_run(readings: Seq<Reading>, n: int)
    requires
        0 <= n <= readings.len(),
    ensures
        ({
            let story = after(readings, n);
            let r = story.run.len() as int;
            &&& r <= n
            &&& story.run == readings.subrange(n - r, n)
            &&& forall|k: int| n - r <= k < n ==> (#[trigger] readings[k]).outside != story.open
            &&& r > 0 ==> readings[n - 1].at - readings[n - r].at < patience(!story.open)
            &&& story.open ==> story.incidents.len() > 0
        }),
    decreases n,
{
    let story = after(readings, n);
    if n > 0 {
        lemma_run(readings, n - 1);
        lemma_after(readings, n - 1);
        let before = after(readings, n - 1);
        let run = before.run.push(readings[n - 1]);
        if readings[n - 1].outside != before.open {
            let r = run.len() as int;
            assert(run =~= readings.subrange(n - r, n));
            assert(run[0] == readings[n - r]);
        }
        assert(story.run.len() == 0 ==> story.run =~= readings.subrange(n, n));
    } else {
        assert(readings.take(0) =~= Seq::empty());
        assert(story.run =~= readings.subrange(0, 0));
    }
}

/// While a stretch lasts, either what it leads to holds or the run reaches back to it.
proof fn lemma_stretch_runs(readings: Seq<Reading>, s: int, j: int, outside: bool)
    requires
        in_time(readings),
        0 <= s <= j < readings.len(),
        forall|k: int| s <= k <= j ==> (#[trigger] readings[k]).outside == outside,
    ensures
        ({
            let story = after(readings, j + 1);
            story.open == outside || story.run.len() >= j + 1 - s
        }),
    decreases j,
{
    lemma_after(readings, j);
    lemma_run(readings, j);
    if s < j {
        lemma_stretch_runs(readings, s, j - 1, outside);
    }
    assert(readings[j].outside == outside);
}

/// A stretch that lasts is told.
proof fn lemma_stretch_told(readings: Seq<Reading>, s: int, e: int, outside: bool)
    requires
        in_time(readings),
        stretch(readings, s, e, outside, patience(outside)),
    ensures
        after(readings, e + 1).open == outside,
{
    lemma_stretch_runs(readings, s, e, outside);
    lemma_run(readings, e + 1);
    let story = after(readings, e + 1);
    let r = story.run.len() as int;
    if story.open != outside {
        assert(readings[e + 1 - r].at <= readings[s].at);
    }
}

/// Nothing turns without a stretch that lasts.
proof fn lemma_turn_needs_stretch(readings: Seq<Reading>, n: int) -> (s: int)
    requires
        0 <= n < readings.len(),
        after(readings, n + 1).open != after(readings, n).open,
    ensures
        stretch(
            readings,
            s,
            n,
            after(readings, n + 1).open,
            patience(after(readings, n + 1).open),
        ),
        n > s ==> readings[n - 1].at - readings[s].at < patience(after(readings, n + 1).open),
        ({
            let turn = if after(readings, n + 1).open {
                after(readings, n + 1).incidents.last().opened
            } else {
                after(readings, n + 1).incidents.last().closed->0
            };
            &&& after(readings, n + 1).incidents.len() > 0
            &&& turn == model::turn_of(
                turn.action,
                readings.subrange(s, n + 1),
                turn.reason,
            )
            &&& after(readings, n + 1).open ==> turn.action == "open"@ && after(
                readings,
                n + 1,
            ).incidents.last().closed is None
            &&& !after(readings, n + 1).open ==> turn.action == "close"@ && after(
                readings,
                n + 1,
            ).incidents.last().closed is Some
        }),
{
    lemma_after(readings, n);
    lemma_run(readings, n);
    let before = after(readings, n);
    let run = before.run.push(readings[n]);
    let s = n + 1 - run.len();
    assert(run =~= readings.subrange(s, n + 1));
    assert(run[0] == readings[s]);
    assert forall|k: int| s <= k <= n implies (#[trigger] readings[k]).outside
        == !before.open by {}
    s
}

/// Incidents come behind those before them.
proof fn lemma_incidents_grow(readings: Seq<Reading>, n: int, m: int)
    requires
        0 <= n <= m <= readings.len(),
    ensures
        after(readings, n).incidents.len() <= after(readings, m).incidents.len(),
    decreases m - n,
{
    if n < m {
        lemma_incidents_grow(readings, n, m - 1);
        lemma_after(readings, m - 1);
    }
}

proof fn lemma_quiet(readings: Seq<Reading>, n: int)
    requires
        0 <= n <= readings.len(),
        forall|s: int, e: int| !stretch(readings, s, e, true, 300),
    ensures
        !after(readings, n).open,
        after(readings, n).incidents.len() == 0,
    decreases n,
{
    if n > 0 {
        lemma_quiet(readings, n - 1);
        lemma_after(readings, n - 1);
        if after(readings, n).open {
            let s = lemma_turn_needs_stretch(readings, n - 1);
            assert(stretch(readings, s, n - 1, true, 300));
        }
    } else {
        assert(readings.take(0) =~= Seq::empty());
    }
}

/// Readings tell no incident exactly if none last outside for five minutes.
proof fn lemma_incidents_need_stretches(readings: Seq<Reading>)
    requires
        in_time(readings),
    ensures
        model::story_of(readings).incidents.len() == 0 <==> forall|s: int, e: int|
            !stretch(readings, s, e, true, 300),
{
    let n = readings.len() as int;
    assert(readings.take(n) =~= readings);
    if exists|s: int, e: int| stretch(readings, s, e, true, 300) {
        let (s, e) = choose|s: int, e: int| stretch(readings, s, e, true, 300);
        lemma_stretch_told(readings, s, e, true);
        lemma_run(readings, e + 1);
        lemma_incidents_grow(readings, e + 1, n);
    } else {
        lemma_quiet(readings, n);
    }
}

/// No stretch inside that would close an incident begins after one outside.
pub open spec fn stays_open(readings: Seq<Reading>, s: int) -> bool {
    forall|a: int, b: int| stretch(readings, a, b, false, 600) ==> a < s
}

proof fn lemma_open_on(readings: Seq<Reading>, s: int, e: int, n: int)
    requires
        in_time(readings),
        stretch(readings, s, e, true, 300),
        stays_open(readings, s),
        e < n <= readings.len(),
    ensures
        after(readings, n).open,
    decreases n,
{
    if n == e + 1 {
        lemma_stretch_told(readings, s, e, true);
    } else {
        lemma_open_on(readings, s, e, n - 1);
        if !after(readings, n).open {
            let a = lemma_turn_needs_stretch(readings, n - 1);
            assert(stretch(readings, a, n - 1, false, 600));
            assert(readings[s].outside && readings[e].outside);
            assert(a < s);
            assert(readings[s].outside == false);
        }
    }
}

/// The turn after which an incident stays open.
proof fn lemma_last_opening(readings: Seq<Reading>, n: int) -> (j: int)
    requires
        0 <= n <= readings.len(),
        after(readings, n).open,
    ensures
        0 <= j < n,
        !after(readings, j).open,
        forall|k: int| j < k <= n ==> (#[trigger] after(readings, k)).open,
    decreases n,
{
    if n == 0 {
        assert(readings.take(0) =~= Seq::empty());
        0
    } else if after(readings, n - 1).open {
        lemma_last_opening(readings, n - 1)
    } else {
        n - 1
    }
}

/// An incident is open at the end exactly if some stretch outside has not been followed
/// by one inside that closes it.
proof fn lemma_open_at_the_end(readings: Seq<Reading>)
    requires
        in_time(readings),
    ensures
        model::story_of(readings).open <==> exists|s: int, e: int|
            #[trigger] stretch(readings, s, e, true, 300) && stays_open(readings, s),
{
    let n = readings.len() as int;
    assert(readings.take(n) =~= readings);
    if exists|s: int, e: int|
        #[trigger] stretch(readings, s, e, true, 300) && stays_open(readings, s) {
        let (s, e) = choose|s: int, e: int|
            #[trigger] stretch(readings, s, e, true, 300) && stays_open(readings, s);
        lemma_open_on(readings, s, e, n);
    }
    if model::story_of(readings).open {
        let j = lemma_last_opening(readings, n);
        assert(after(readings, j + 1).open);
        let s = lemma_turn_needs_stretch(readings, j);
        assert(stretch(readings, s, j, true, 300));
        assert forall|a: int, b: int| stretch(readings, a, b, false, 600) implies a < s by {
            lemma_stretch_told(readings, a, b, false);
            if b + 1 > j {
                assert(!after(readings, b + 1).open);
                assert(after(readings, b + 1).open);
            }
            if a >= s {
                assert(readings[a].outside == false);
                assert(s <= a <= j);
            }
        }
        assert(stays_open(readings, s));
    }
}

/// What a transition tells of the readings that led to it.
pub open spec fn turned(
    turn: Turn,
    readings: Seq<Reading>,
    s: int,
    e: int,
    outside: bool,
) -> bool {
    &&& stretch(readings, s, e, outside, patience(outside))
    &&& e > s ==> readings[e - 1].at - readings[s].at < patience(outside)
    &&& turn.action == if outside {
        "open"@
    } else {
        "close"@
    }
    &&& turn.at == readings[e].at
    &&& turn.trigger == readings[e].id
    &&& turn.contributing.len() == e + 1 - s
    &&& forall|k: int|
        s <= k <= e ==> turn.contributing[k - s] == (#[trigger] readings[k]).id
}

pub open spec fn episode_told(episode: Episode, readings: Seq<Reading>) -> bool {
    exists|s: int, e: int|
        {
            &&& #[trigger] turned(episode.opened, readings, s, e, true)
            &&& episode.closed matches Some(closed) ==> exists|a: int, b: int|
                e < a && #[trigger] turned(closed, readings, a, b, false)
        }
}

proof fn lemma_turned(readings: Seq<Reading>, n: int) -> (s: int)
    requires
        0 <= n < readings.len(),
        after(readings, n + 1).open != after(readings, n).open,
    ensures
        0 <= s <= n,
        ({
            let last = after(readings, n + 1).incidents.last();
            if after(readings, n + 1).open {
                turned(last.opened, readings, s, n, true) && last.closed is None
            } else {
                last.closed is Some && turned(last.closed->0, readings, s, n, false)
            }
        }),
{
    let s = lemma_turn_needs_stretch(readings, n);
    let run = readings.subrange(s, n + 1);
    assert(run.last() == readings[n]);
    let ids = run.map_values(|reading: Reading| reading.id);
    assert forall|k: int| s <= k <= n implies ids[k - s] == (#[trigger] readings[k]).id by {
        assert(run[k - s] == readings[k]);
    }
    s
}

/// Every incident goes back to a stretch outside, and its end to one inside.
proof fn lemma_episodes(readings: Seq<Reading>, n: int, i: int)
    requires
        0 <= n <= readings.len(),
        0 <= i < after(readings, n).incidents.len(),
    ensures
        episode_told(after(readings, n).incidents[i], readings),
        after(readings, n).open && i == after(readings, n).incidents.len() - 1 ==> after(
            readings,
            n,
        ).incidents[i].closed is None && exists|s: int, e: int|
            e < n && #[trigger] turned(after(readings, n).incidents[i].opened, readings, s, e, true),
    decreases n,
{
    if n == 0 {
        assert(readings.take(0) =~= Seq::empty());
    } else {
        let (before, now) = (after(readings, n - 1), after(readings, n));
        lemma_after(readings, n - 1);
        lemma_run(readings, n - 1);
        if before.open == now.open {
            assert(now.incidents == before.incidents);
            lemma_episodes(readings, n - 1, i);
            if now.open && i == now.incidents.len() - 1 {
                let (s, e) = choose|s: int, e: int|
                    e < n - 1 && #[trigger] turned(now.incidents[i].opened, readings, s, e, true);
                assert(turned(now.incidents[i].opened, readings, s, e, true));
            }
        } else {
            let s = lemma_turned(readings, n - 1);
            if i < now.incidents.len() - 1 {
                assert(now.incidents[i] == before.incidents[i]);
                lemma_episodes(readings, n - 1, i);
            } else if now.open {
                assert(turned(now.incidents[i].opened, readings, s, n - 1, true));
            } else {
                lemma_episodes(readings, n - 1, i);
                assert(now.incidents[i].opened == before.incidents[i].opened);
                let (p, e) = choose|p: int, e: int|
                    e < n - 1 && #[trigger] turned(before.incidents[i].opened, readings, p, e, true);
                assert(turned(now.incidents[i].closed->0, readings, s, n - 1, false));
                assert(readings[e].outside);
                assert(readings[n - 1].outside == false);
                if s <= e {
                    assert(readings[e].outside == false);
                }
                assert(turned(now.incidents[i].opened, readings, p, e, true));
            }
        }
    }
}

/// No record replaces an observation.
pub open spec fn unreplaced(records: Seq<Entry>, obs: Obs) -> bool {
    &&& records.contains(Entry::Observation(obs))
    &&& forall|other: Obs| #[trigger]
        records.contains(Entry::Observation(other)) ==> other.replaces != Some(obs.id)
}

/// The observations of a freezer that no record replaces, the earliest first.
pub open spec fn tells(records: Seq<Entry>, freezer: Seq<char>, told: Seq<Obs>) -> bool {
    &&& forall|i: int, j: int|
        0 <= i < j < told.len() ==> (#[trigger] told[i]).observed_at < (
        #[trigger] told[j]).observed_at || (told[i].observed_at == told[j].observed_at
            && text::text_lt(told[i].id, told[j].id))
    &&& forall|obs: Obs| #[trigger]
        told.contains(obs) <==> unreplaced(records, obs) && obs.freezer == freezer
}

/// The configuration of its freezer that took effect last before an observation.
pub open spec fn ruled_by(records: Seq<Entry>, obs: Obs, limit: Limit) -> bool {
    &&& records.contains(Entry::Configuration(limit))
    &&& limit.freezer == obs.freezer && limit.effective_at <= obs.observed_at
    &&& forall|other: Limit| #[trigger]
        records.contains(Entry::Configuration(other)) && other.freezer == obs.freezer
            && other.effective_at <= obs.observed_at ==> other.effective_at <= limit.effective_at
}

/// A temperature lies below the lowest or above the highest that the configuration allows.
pub open spec fn out_of_band(records: Seq<Entry>, obs: Obs) -> bool {
    exists|limit: Limit| #[trigger]
        ruled_by(records, obs, limit) && (obs.temp_tenths < limit.min_temp_tenths
            || obs.temp_tenths > limit.max_temp_tenths)
}

/// Observations `s` to `e` are all out of their bands, or all within, and lie some
/// seconds apart.
pub open spec fn lasts(
    records: Seq<Entry>,
    told: Seq<Obs>,
    s: int,
    e: int,
    outside: bool,
    seconds: int,
) -> bool {
    &&& 0 <= s <= e < told.len()
    &&& told[e].observed_at - told[s].observed_at >= seconds
    &&& forall|k: int| s <= k <= e ==> out_of_band(records, #[trigger] told[k]) == outside
}

proof fn lemma_told_once(a: Seq<Obs>, b: Seq<Obs>)
    requires
        laws::chronological(a),
        laws::chronological(b),
        forall|obs: Obs| #[trigger] a.contains(obs) <==> b.contains(obs),
    ensures
        a == b,
    decreases a.len() + b.len(),
{
    if a.len() > 0 && b.len() > 0 {
        let (x, y) = (a.last(), b.last());
        assert(a.contains(x) && b.contains(y));
        assert(a.contains(y));
        let i = choose|i: int| 0 <= i < b.len() && b[i] == x;
        let j = choose|j: int| 0 <= j < a.len() && a[j] == y;
        text::lemma_text_total(x.id, y.id);
        if x != y {
            assert(model::earlier(b[i], b[b.len() - 1]));
            assert(model::earlier(a[j], a[a.len() - 1]));
        }
        let (p, q) = (a.drop_last(), b.drop_last());
        assert forall|obs: Obs| #[trigger] p.contains(obs) <==> q.contains(obs) by {
            if p.contains(obs) {
                let k = choose|k: int| 0 <= k < p.len() && p[k] == obs;
                assert(a[k] == obs);
                assert(model::earlier(a[k], a[a.len() - 1]));
                text::lemma_text_total(obs.id, obs.id);
                assert(a.contains(obs));
                let m = choose|m: int| 0 <= m < b.len() && b[m] == obs;
                assert(m < b.len() - 1);
                assert(q[m] == obs);
            }
            if q.contains(obs) {
                let k = choose|k: int| 0 <= k < q.len() && q[k] == obs;
                assert(b[k] == obs);
                assert(model::earlier(b[k], b[b.len() - 1]));
                text::lemma_text_total(obs.id, obs.id);
                assert(b.contains(obs) && a.contains(obs));
                let m = choose|m: int| 0 <= m < a.len() && a[m] == obs;
                assert(m < a.len() - 1);
                assert(p[m] == obs);
            }
        }
        lemma_told_once(p, q);
        assert(a =~= p.push(x));
        assert(b =~= q.push(y));
    } else if a.len() > 0 {
        assert(a.contains(a[0]));
        assert(b.contains(a[0]));
    } else if b.len() > 0 {
        assert(b.contains(b[0]));
        assert(a.contains(b[0]));
    } else {
        assert(a =~= b);
    }
}

/// What stands of an archive is what no record replaces.
pub proof fn lemma_stands(records: Seq<Entry>, obs: Obs)
    requires
        model::archive_error(records) is None,
    ensures
        model::stands(model::observations(records), obs) <==> unreplaced(records, obs),
{
    let all = model::observations(records);
    laws::lemma_kept(records);
    if model::stands(all, obs) {
        assert forall|other: Obs| #[trigger] records.contains(
            Entry::Observation(other),
        ) implies other.replaces != Some(obs.id) by {
            assert(all.contains(other));
            let m = choose|m: int| 0 <= m < all.len() && all[m] == other;
            assert(all[m].replaces != Some(obs.id));
        }
    }
    if unreplaced(records, obs) {
        assert(all.contains(obs));
        assert forall|m: int| 0 <= m < all.len() implies (#[trigger] all[m]).replaces != Some(
            obs.id,
        ) by {
            assert(all.contains(all[m]));
        }
    }
}

proof fn lemma_ruled(records: Seq<Entry>, obs: Obs, limit: Limit)
    requires
        model::archive_error(records) is None,
    ensures
        model::in_force(model::configurations(records), obs, limit) <==> ruled_by(
            records,
            obs,
            limit,
        ),
{
    let limits = model::configurations(records);
    laws::lemma_kept(records);
    if model::in_force(limits, obs, limit) {
        assert forall|other: Limit| #[trigger]
            records.contains(Entry::Configuration(other)) && other.freezer == obs.freezer
                && other.effective_at <= obs.observed_at implies other.effective_at
            <= limit.effective_at by {
            assert(limits.contains(other));
        }
    }
    if ruled_by(records, obs, limit) {
        assert forall|other: Limit| #[trigger]
            limits.contains(other) && other.freezer == obs.freezer && other.effective_at
                <= obs.observed_at implies other.effective_at <= limit.effective_at by {
            assert(records.contains(Entry::Configuration(other)));
        }
    }
}

proof fn lemma_reading(records: Seq<Entry>, obs: Obs)
    requires
        model::archive_error(records) is None,
        model::is_limited(model::configurations(records), obs),
    ensures
        model::reading_of(model::configurations(records), obs).outside == out_of_band(
            records,
            obs,
        ),
{
    let limits = model::configurations(records);
    laws::lemma_in_good_order(records);
    let limit = model::limit_of(limits, obs);
    assert(model::in_force(limits, obs, limit));
    lemma_ruled(records, obs, limit);
    assert forall|other: Limit| #[trigger] ruled_by(records, obs, other) implies other == limit by {
        lemma_ruled(records, obs, other);
        let i = choose|i: int| 0 <= i < limits.len() && limits[i] == limit;
        let j = choose|j: int| 0 <= j < limits.len() && limits[j] == other;
        if i < j {
            assert(!model::same_slot(limits[i], limits[j]));
        } else if j < i {
            assert(!model::same_slot(limits[j], limits[i]));
        }
    }
}

/// The readings of an exported freezer are those that the records tell.
proof fn lemma_exported(records: Seq<Entry>, k: int, told: Seq<Obs>) -> (readings: Seq<Reading>)
    requires
        reduce::reference_error(records) is None,
        0 <= k < reduce::repaired(records).len(),
        tells(records, reduce::repaired(records)[k].id, told),
    ensures
        ({
            let freezer = reduce::repaired(records)[k];
            let story = model::story_of(readings);
            &&& freezer.incidents == story.incidents
            &&& freezer.status == if story.open {
                "excursion"@
            } else {
                "normal"@
            }
            &&& readings.len() == told.len()
            &&& in_time(readings)
            &&& forall|i: int|
                0 <= i < told.len() ==> (#[trigger] readings[i]).at == told[i].observed_at
                    && readings[i].id == told[i].id && readings[i].outside == out_of_band(
                    records,
                    told[i],
                )
        }),
{
    let all = model::observations(records);
    let limits = model::configurations(records);
    let ids = text::in_order(model::freezer_ids(all));
    let id = ids[k];
    laws::lemma_in_good_order(records);
    laws::lemma_timeline(all, id);
    laws::lemma_freezer_sound(all, limits, ids.len(), k);
    let timeline = model::timeline(all, id);
    assert forall|obs: Obs| #[trigger] timeline.contains(obs) <==> told.contains(obs) by {
        lemma_stands(records, obs);
    }
    assert(laws::chronological(told)) by {
        assert forall|i: int, j: int| 0 <= i < j < told.len() implies model::earlier(
            #[trigger] told[i],
            #[trigger] told[j],
        ) by {}
    }
    lemma_told_once(timeline, told);
    let readings = model::readings_of(limits, timeline);
    assert forall|i: int| 0 <= i < told.len() implies (#[trigger] readings[i]).at
        == told[i].observed_at && readings[i].id == told[i].id && readings[i].outside
        == out_of_band(records, told[i]) by {
        laws::lemma_gapless(timeline, limits, timeline.len(), i);
        lemma_reading(records, told[i]);
    }
    assert forall|i: int, j: int| 0 <= i <= j < readings.len() implies (#[trigger] readings[i]).at
        <= (#[trigger] readings[j]).at by {
        if i < j {
            assert(model::earlier(told[i], told[j]));
        }
    }
    readings
}

proof fn lemma_lasts(
    records: Seq<Entry>,
    told: Seq<Obs>,
    readings: Seq<Reading>,
    s: int,
    e: int,
    outside: bool,
    seconds: int,
)
    requires
        readings.len() == told.len(),
        forall|i: int|
            0 <= i < told.len() ==> (#[trigger] readings[i]).at == told[i].observed_at
                && readings[i].outside == out_of_band(records, told[i]),
    ensures
        stretch(readings, s, e, outside, seconds) <==> lasts(
            records,
            told,
            s,
            e,
            outside,
            seconds,
        ),
{
    if stretch(readings, s, e, outside, seconds) {
        assert forall|k: int| s <= k <= e implies out_of_band(records, #[trigger] told[k])
            == outside by {
            assert(readings[k].outside == outside);
        }
    }
    if lasts(records, told, s, e, outside, seconds) {
        assert forall|k: int| s <= k <= e implies (#[trigger] readings[k]).outside == outside by {
            assert(out_of_band(records, told[k]) == outside);
        }
    }
}

/// A freezer has an incident exactly if its standing observations stay out of their
/// bands, below or above, for five minutes at least.
pub proof fn five_minutes_outside_make_an_incident(
    records: Seq<Entry>,
    k: int,
    told: Seq<Obs>,
)
    requires
        reduce::reference_error(records) is None,
        0 <= k < reduce::repaired(records).len(),
        tells(records, reduce::repaired(records)[k].id, told),
    ensures
        reduce::repaired(records)[k].incidents.len() > 0 <==> exists|s: int, e: int| #[trigger]
            lasts(records, told, s, e, true, 300),
{
    let readings = lemma_exported(records, k, told);
    lemma_incidents_need_stretches(readings);
    assert forall|s: int, e: int| #[trigger] lasts(records, told, s, e, true, 300) == stretch(
        readings,
        s,
        e,
        true,
        300,
    ) by {
        lemma_lasts(records, told, readings, s, e, true, 300);
    }
    if reduce::repaired(records)[k].incidents.len() > 0 {
        let (s, e) = choose|s: int, e: int| stretch(readings, s, e, true, 300);
        assert(lasts(records, told, s, e, true, 300));
    }
}

/// A freezer is shown in excursion exactly if its standing observations stayed out of
/// their bands for five minutes and never afterwards within for ten; otherwise it is
/// shown as normal.
pub proof fn ten_minutes_inside_end_an_excursion(records: Seq<Entry>, k: int, told: Seq<Obs>)
    requires
        reduce::reference_error(records) is None,
        0 <= k < reduce::repaired(records).len(),
        tells(records, reduce::repaired(records)[k].id, told),
    ensures
        ({
            let excursion = exists|s: int, e: int|
                {
                    &&& #[trigger] lasts(records, told, s, e, true, 300)
                    &&& forall|a: int, b: int| #[trigger]
                        lasts(records, told, a, b, false, 600) ==> a < s
                };
            reduce::repaired(records)[k].status == if excursion {
                "excursion"@
            } else {
                "normal"@
            }
        }),
{
    let readings = lemma_exported(records, k, told);
    lemma_open_at_the_end(readings);
    assert forall|s: int, e: int| #[trigger] lasts(records, told, s, e, true, 300) == stretch(
        readings,
        s,
        e,
        true,
        300,
    ) by {
        lemma_lasts(records, told, readings, s, e, true, 300);
    }
    assert forall|s: int, e: int| #[trigger] lasts(records, told, s, e, false, 600) == stretch(
        readings,
        s,
        e,
        false,
        600,
    ) by {
        lemma_lasts(records, told, readings, s, e, false, 600);
    }
    if model::story_of(readings).open {
        let (s, e) = choose|s: int, e: int|
            #[trigger] stretch(readings, s, e, true, 300) && stays_open(readings, s);
        assert(lasts(records, told, s, e, true, 300));
        assert forall|a: int, b: int| #[trigger]
            lasts(records, told, a, b, false, 600) implies a < s by {
            assert(stretch(readings, a, b, false, 600));
        }
    } else {
        assert forall|s: int, e: int| #[trigger]
            lasts(records, told, s, e, true, 300) implies exists|a: int, b: int| #[trigger]
            lasts(records, told, a, b, false, 600) && a >= s by {
            assert(stretch(readings, s, e, true, 300));
            assert(!stays_open(readings, s));
            let (a, b) = choose|a: int, b: int|
                stretch(readings, a, b, false, 600) && a >= s;
            assert(lasts(records, told, a, b, false, 600));
        }
    }
}

/// What a transition tells of the observations that led to it: all went one way for long
/// enough, and no longer than it took.
pub open spec fn led_to(
    records: Seq<Entry>,
    told: Seq<Obs>,
    s: int,
    e: int,
    outside: bool,
    turn: Turn,
) -> bool {
    &&& lasts(records, told, s, e, outside, patience(outside))
    &&& e > s ==> told[e - 1].observed_at - told[s].observed_at < patience(outside)
    &&& turn.action == if outside {
        "open"@
    } else {
        "close"@
    }
    &&& turn.at == told[e].observed_at
    &&& turn.trigger == told[e].id
    &&& turn.contributing == told.subrange(s, e + 1).map_values(|obs: Obs| obs.id)
}

/// Every incident names the observations that opened it, the last of them as its
/// trigger and its time; and where it is closed, those that closed it, later ones all.
pub proof fn incidents_name_what_led_to_them(
    records: Seq<Entry>,
    k: int,
    told: Seq<Obs>,
    i: int,
)
    requires
        reduce::reference_error(records) is None,
        0 <= k < reduce::repaired(records).len(),
        tells(records, reduce::repaired(records)[k].id, told),
        0 <= i < reduce::repaired(records)[k].incidents.len(),
    ensures
        ({
            let incident = reduce::repaired(records)[k].incidents[i];
            exists|s: int, e: int|
                {
                    &&& #[trigger] led_to(records, told, s, e, true, incident.opened)
                    &&& incident.closed matches Some(closed) ==> exists|a: int, b: int|
                        e < a && #[trigger] led_to(records, told, a, b, false, closed)
                }
        }),
{
    let readings = lemma_exported(records, k, told);
    let n = readings.len() as int;
    assert(readings.take(n) =~= readings);
    lemma_episodes(readings, n, i);
    let incident = reduce::repaired(records)[k].incidents[i];
    assert forall|turn: Turn, s: int, e: int, outside: bool| #[trigger]
        turned(turn, readings, s, e, outside) implies led_to(
        records,
        told,
        s,
        e,
        outside,
        turn,
    ) by {
        lemma_lasts(records, told, readings, s, e, outside, patience(outside));
        let ids = told.subrange(s, e + 1).map_values(|obs: Obs| obs.id);
        assert forall|j: int| 0 <= j < ids.len() implies turn.contributing[j] == ids[j] by {
            assert(readings[s + j].id == told[s + j].id);
        }
        assert(turn.contributing =~= ids);
    }
    let (s, e) = choose|s: int, e: int|
        {
            &&& #[trigger] turned(incident.opened, readings, s, e, true)
            &&& incident.closed matches Some(closed) ==> exists|a: int, b: int|
                e < a && #[trigger] turned(closed, readings, a, b, false)
        };
    assert(led_to(records, told, s, e, true, incident.opened));
    if let Some(closed) = incident.closed {
        let (a, b) = choose|a: int, b: int|
            e < a && #[trigger] turned(closed, readings, a, b, false);
        assert(led_to(records, told, a, b, false, closed));
    }
}

/// The export names the freezers of which an observation stands, each once, in the order
/// of their names.
pub proof fn freezers_with_standing_observations_are_told(records: Seq<Entry>, id: Seq<char>)
    requires
        reduce::reference_error(records) is None,
    ensures
        (exists|k: int|
            0 <= k < reduce::repaired(records).len() && (#[trigger] reduce::repaired(
                records,
            )[k]).id == id) <==> exists|obs: Obs| #[trigger]
            unreplaced(records, obs) && obs.freezer == id,
        forall|a: int, b: int|
            0 <= a < b < reduce::repaired(records).len() ==> text::text_lt(
                (#[trigger] reduce::repaired(records)[a]).id,
                (#[trigger] reduce::repaired(records)[b]).id,
            ),
{
    let all = model::observations(records);
    let ids = text::in_order(model::freezer_ids(all));
    laws::lemma_freezers_listed(all);
    assert forall|k: int| 0 <= k < ids.len() implies (#[trigger] reduce::repaired(records)[k]).id
        == ids[k] by {}
    assert forall|obs: Obs| #[trigger] model::stands(all, obs) == unreplaced(records, obs) by {
        lemma_stands(records, obs);
    }
    if exists|obs: Obs| #[trigger] unreplaced(records, obs) && obs.freezer == id {
        let obs = choose|obs: Obs| #[trigger] unreplaced(records, obs) && obs.freezer == id;
        assert(model::stands(all, obs));
        assert(model::freezer_ids(all).contains(id));
        assert(ids.contains(id));
        let k = choose|k: int| 0 <= k < ids.len() && ids[k] == id;
        assert(reduce::repaired(records)[k].id == id);
    }
    if exists|k: int|
        0 <= k < reduce::repaired(records).len() && (#[trigger] reduce::repaired(records)[k]).id
            == id {
        let k = choose|k: int|
            0 <= k < reduce::repaired(records).len() && (#[trigger] reduce::repaired(
                records,
            )[k]).id == id;
        assert(ids.contains(ids[k]));
        let obs = choose|obs: Obs| #[trigger] model::stands(all, obs) && obs.freezer == id;
        assert(unreplaced(records, obs));
    }
}

} // verus!
