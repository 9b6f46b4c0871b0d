//! Incidents from a validated archive.

use vstd::prelude::*;
use crate::coldchain::model;
use crate::coldchain::model::{
    Config, Episode, Export, Freezer, FreezerExport, Incident, Limit, Obs, Observation, Reading,
    Record, Story, Transition, CLOSING_SECONDS, OPENING_SECONDS,
};
use crate::coldchain::validate;
use crate::coldchain::validate::{validate, Validated};
use crate::sorting;
use crate::sorting::{sort, Ranked};
use crate::text;
use crate::text::{first_places, joined, push_decimal, same_text, sorted_unique};

verus! {

/// A reading with the limit that it is held against.
#[derive(Clone, Copy)]
pub struct Evaluated<'a> {
    pub observation: &'a Observation,
    pub config: &'a Config,
    pub outside: bool,
}

impl<'a> View for Evaluated<'a> {
    type V = Reading;

    open spec fn view(&self) -> Reading {
        Reading {
            id: self.observation@.id,
            at: self.observation.observed_at,
            configuration: self.config@.id,
            outside: self.outside,
        }
    }
}

pub open spec fn readings(run: Seq<Evaluated>) -> Seq<Reading> {
    run.map_values(|reading: Evaluated| reading@)
}

/// The transition that a run of readings makes.
fn transition(action: &str, run: &Vec<Evaluated>, reason: &str) -> (made: Transition)
    requires
        run@.len() > 0,
    ensures
        made@ == model::turn_of(action@, readings(run@), reason@),
{
    let ghost shown = readings(run@);
    let mut used: Vec<&str> = Vec::new();
    let mut contributing: Vec<String> = Vec::new();
    let mut i: usize = 0;
    while i < run.len()
        invariant
            i <= run@.len(),
            shown == readings(run@),
            used@.len() == i,
            contributing@.len() == i,
            forall|k: int| 0 <= k < i ==> (#[trigger] used@[k])@ == shown[k].configuration,
            forall|k: int| 0 <= k < i ==> (#[trigger] contributing@[k])@ == shown[k].id,
        decreases run@.len() - i,
    {
        assert(shown[i as int] == run@[i as int]@);
        used.push(run[i].config.configuration_id.as_str());
        contributing.push(run[i].observation.observation_id.as_str().to_owned());
        i = i + 1;
    }
    let configuration_ids = sorted_unique(&used);
    let trigger = run[run.len() - 1];
    proof {
        assert(text::text_set(used@) =~= model::used_configurations(shown)) by {
            assert forall|t: Seq<char>| #[trigger] text::text_set(used@).contains(t)
                <==> model::used_configurations(shown).contains(t) by {
                if text::text_set(used@).contains(t) {
                    let k = choose|k: int| 0 <= k < used@.len() && (#[trigger] used@[k])@ == t;
                    assert(shown[k].configuration == t);
                }
                if model::used_configurations(shown).contains(t) {
                    let k = choose|k: int|
                        0 <= k < shown.len() && (#[trigger] shown[k]).configuration == t;
                    assert(used@[k]@ == t);
                }
            }
        }
        assert(model::texts(contributing@) =~= shown.map_values(|reading: Reading| reading.id));
        assert(shown.last() == trigger@);
    }
    Transition {
        action: action.to_owned(),
        at: trigger.observation.observed_at,
        trigger_observation_id: trigger.observation.observation_id.as_str().to_owned(),
        reason: reason.to_owned(),
        contributing_observation_ids: contributing,
        configuration_ids,
    }
}

/// Readings whose times cannot be negative.
pub open spec fn timed(run: Seq<Evaluated>) -> bool {
    forall|i: int| 0 <= i < run.len() ==> (#[trigger] run[i]).observation.observed_at >= 0
}

pub open spec fn exported(id: Seq<char>, story: Story) -> Freezer {
    Freezer {
        id,
        status: if story.open {
            "excursion"@
        } else {
            "normal"@
        },
        incidents: story.incidents,
    }
}

fn close_last(incidents: &mut Vec<Incident>, closed: Transition)
    requires
        old(incidents)@.len() > 0,
    ensures
        model::episodes(final(incidents)@) == model::episodes(old(incidents)@).update(
            old(incidents)@.len() - 1,
            (Episode { closed: Some(closed@), ..model::episodes(old(incidents)@).last() }),
        ),
{
    let last = incidents.len() - 1;
    incidents[last].closed = Some(closed);
    proof {
        assert(model::episodes(incidents@) =~= model::episodes(old(incidents)@).update(
            old(incidents)@.len() - 1,
            Episode { closed: Some(closed@), ..model::episodes(old(incidents)@).last() },
        ));
    }
}

/// Replays the readings of a freezer, with one flag and one run.
pub fn reference_replay(freezer_id: &str, timeline: &Vec<Evaluated>) -> (export: FreezerExport)
    requires
        timed(timeline@),
    ensures
        export@ == exported(freezer_id@, model::story_of(readings(timeline@))),
{
    let ghost shown = readings(timeline@);
    let mut incidents: Vec<Incident> = Vec::new();
    let mut excursion_open: bool = false;
    let mut run: Vec<Evaluated> = Vec::new();
    let mut i: usize = 0;
    proof {
        assert(shown.take(0) =~= Seq::empty());
        assert(readings(run@) =~= Seq::empty());
        assert(model::episodes(incidents@) =~= Seq::empty());
    }
    while i < timeline.len()
        invariant
            i <= timeline@.len(),
            shown == readings(timeline@),
            timed(timeline@),
            timed(run@),
            excursion_open ==> incidents@.len() > 0,
            model::story_of(shown.take(i as int)) == (Story {
                open: excursion_open,
                run: readings(run@),
                incidents: model::episodes(incidents@),
            }),
        decreases timeline@.len() - i,
    {
        let reading = timeline[i];
        let ghost before = run@;
        let ghost earlier = incidents@;
        let ghost story = model::story_of(shown.take(i as int));
        proof {
            assert(shown[i as int] == reading@);
            assert(shown.take(i + 1).drop_last() =~= shown.take(i as int));
            assert(shown.take(i + 1).last() == reading@);
            assert(model::story_of(shown.take(i + 1)) == model::told(story, reading@));
        }
        if reading.outside != excursion_open {
            run.push(reading);
            proof {
                assert(readings(run@) =~= readings(before).push(reading@));
            }
        } else {
            run.clear();
            proof {
                assert(readings(run@) =~= Seq::empty());
            }
        }
        let threshold: i64 = if excursion_open {
            CLOSING_SECONDS
        } else {
            OPENING_SECONDS
        };
        let reached: bool = run.len() > 0 && reading.observation.observed_at
            - run[0].observation.observed_at >= threshold;
        proof {
            if run@.len() > 0 {
                assert(readings(run@)[0] == run@[0]@);
            }
        }
        if reached {
            if excursion_open {
                let closed = transition(
                    "close",
                    &run,
                    "ten continuous minutes inside configured band",
                );
                close_last(&mut incidents, closed);
            } else {
                let opened = transition(
                    "open",
                    &run,
                    "five continuous minutes outside configured band",
                );
                incidents.push(Incident { opened, closed: None });
                proof {
                    assert(model::episodes(incidents@) =~= model::episodes(earlier).push(
                        Episode { opened: opened@, closed: None },
                    ));
                }
            }
            excursion_open = !excursion_open;
            run.clear();
            proof {
                assert(readings(run@) =~= Seq::empty());
            }
        }
        i = i + 1;
    }
    assert(shown.take(shown.len() as int) =~= shown);
    FreezerExport {
        freezer_id: freezer_id.to_owned(),
        current_status: if excursion_open {
            "excursion".to_owned()
        } else {
            "normal".to_owned()
        },
        incidents,
    }
}

/// What a replay waits for: a run outside that opens an incident, or one inside
/// that closes it.
pub enum CandidateMode<'a> {
    Normal { outside_run: Vec<Evaluated<'a>> },
    Excursion { inside_run: Vec<Evaluated<'a>> },
}

impl<'a> CandidateMode<'a> {
    pub open spec fn story(&self, incidents: Seq<Incident>) -> Story {
        match self {
            CandidateMode::Normal { outside_run } => Story {
                open: false,
                run: readings(outside_run@),
                incidents: model::episodes(incidents),
            },
            CandidateMode::Excursion { inside_run } => Story {
                open: true,
                run: readings(inside_run@),
                incidents: model::episodes(incidents),
            },
        }
    }

    pub open spec fn sound(&self, incidents: Seq<Incident>) -> bool {
        match self {
            CandidateMode::Normal { outside_run } => timed(outside_run@),
            CandidateMode::Excursion { inside_run } => timed(inside_run@) && incidents.len() > 0,
        }
    }

    /// Takes in one reading more.
    fn advance(self, reading: Evaluated<'a>, incidents: &mut Vec<Incident>) -> (mode: Self)
        requires
            self.sound(old(incidents)@),
            reading.observation.observed_at >= 0,
        ensures
            mode.sound(final(incidents)@),
            mode.story(final(incidents)@) == model::told(self.story(old(incidents)@), reading@),
    {
        let ghost earlier = incidents@;
        match self {
            CandidateMode::Normal { outside_run } => {
                let mut run = outside_run;
                let ghost before = run@;
                if !reading.outside {
                    run.clear();
                    assert(readings(run@) =~= Seq::empty());
                    return CandidateMode::Normal { outside_run: run };
                }
                run.push(reading);
                proof {
                    assert(readings(run@) =~= readings(before).push(reading@));
                    assert(readings(run@)[0] == run@[0]@);
                }
                if reading.observation.observed_at - run[0].observation.observed_at
                    < OPENING_SECONDS {
                    return CandidateMode::Normal { outside_run: run };
                }
                let opened = transition(
                    "open",
                    &run,
                    "five continuous minutes outside configured band",
                );
                incidents.push(Incident { opened, closed: None });
                proof {
                    assert(model::episodes(incidents@) =~= model::episodes(earlier).push(
                        Episode { opened: opened@, closed: None },
                    ));
                }
                let inside_run: Vec<Evaluated<'a>> = Vec::new();
                assert(readings(inside_run@) =~= Seq::empty());
                CandidateMode::Excursion { inside_run }
            },
            CandidateMode::Excursion { inside_run } => {
                let mut run = inside_run;
                let ghost before = run@;
                if reading.outside {
                    run.clear();
                    assert(readings(run@) =~= Seq::empty());
                    return CandidateMode::Excursion { inside_run: run };
                }
                run.push(reading);
                proof {
                    assert(readings(run@) =~= readings(before).push(reading@));
                    assert(readings(run@)[0] == run@[0]@);
                }
                if reading.observation.observed_at - run[0].observation.observed_at
                    < CLOSING_SECONDS {
                    return CandidateMode::Excursion { inside_run: run };
                }
                let closed = transition(
                    "close",
                    &run,
                    "ten continuous minutes inside configured band",
                );
                close_last(incidents, closed);
                let outside_run: Vec<Evaluated<'a>> = Vec::new();
                assert(readings(outside_run@) =~= Seq::empty());
                CandidateMode::Normal { outside_run }
            },
        }
    }
}

/// Replays the readings of a freezer, mode by mode.
pub fn candidate_replay(freezer_id: &str, timeline: &Vec<Evaluated>) -> (export: FreezerExport)
    requires
        timed(timeline@),
    ensures
        export@ == exported(freezer_id@, model::story_of(readings(timeline@))),
{
    let ghost shown = readings(timeline@);
    let mut incidents: Vec<Incident> = Vec::new();
    let mut mode = CandidateMode::Normal { outside_run: Vec::new() };
    let mut i: usize = 0;
    proof {
        assert(shown.take(0) =~= Seq::empty());
        assert(readings(Seq::<Evaluated>::empty()) =~= Seq::empty());
        assert(model::episodes(incidents@) =~= Seq::empty());
    }
    while i < timeline.len()
        invariant
            i <= timeline@.len(),
            shown == readings(timeline@),
            timed(timeline@),
            mode.sound(incidents@),
            model::story_of(shown.take(i as int)) == mode.story(incidents@),
        decreases timeline@.len() - i,
    {
        let reading = timeline[i];
        proof {
            assert(shown[i as int] == reading@);
            assert(shown.take(i + 1).drop_last() =~= shown.take(i as int));
            assert(shown.take(i + 1).last() == reading@);
        }
        mode = mode.advance(reading, &mut incidents);
        i = i + 1;
    }
    assert(shown.take(shown.len() as int) =~= shown);
    FreezerExport {
        freezer_id: freezer_id.to_owned(),
        current_status: match &mode {
            CandidateMode::Normal { .. } => "normal".to_owned(),
            CandidateMode::Excursion { .. } => "excursion".to_owned(),
        },
        incidents,
    }
}

/// Only one limit can be in force.
pub proof fn lemma_one_in_force(limits: Seq<Limit>, obs: Obs, a: Limit, b: Limit)
    requires
        validate::unambiguous(limits),
        model::in_force(limits, obs, a),
        model::in_force(limits, obs, b),
    ensures
        a == b,
{
    assert(limits.contains(a) && limits.contains(b));
    let i = choose|i: int| 0 <= i < limits.len() && limits[i] == a;
    let j = choose|j: int| 0 <= j < limits.len() && limits[j] == b;
    assert(a.effective_at == b.effective_at);
    if i < j {
        assert(!model::same_slot(limits[i], limits[j]));
    } else if j < i {
        assert(!model::same_slot(limits[j], limits[i]));
    }
}

/// Holds an observation against the limit in force, if one is.
fn evaluate<'a>(configurations: &Vec<&'a Config>, observation: &'a Observation) -> (result: Option<
    Evaluated<'a>,
>)
    requires
        validate::unambiguous(validate::limit_views(configurations@)),
    ensures
        ({
            let limits = validate::limit_views(configurations@);
            match result {
                Some(reading) => model::is_limited(limits, observation@) && reading@
                    == model::reading_of(limits, observation@) && reading.observation
                    == observation,
                None => !model::is_limited(limits, observation@),
            }
        }),
{
    let ghost limits = validate::limit_views(configurations@);
    let ghost obs = observation@;
    let mut best: Option<usize> = None;
    let mut i: usize = 0;
    while i < configurations.len()
        invariant
            i <= configurations@.len(),
            limits == validate::limit_views(configurations@),
            obs == observation@,
            match best {
                Some(k) => k < i && limits[k as int].freezer == obs.freezer
                    && limits[k as int].effective_at <= obs.observed_at && forall|j: int|
                    0 <= j < i && (#[trigger] limits[j]).freezer == obs.freezer
                        && limits[j].effective_at <= obs.observed_at ==> limits[j].effective_at
                        <= limits[k as int].effective_at,
                None => forall|j: int|
                    0 <= j < i ==> !((#[trigger] limits[j]).freezer == obs.freezer
                        && limits[j].effective_at <= obs.observed_at),
            },
        decreases configurations@.len() - i,
    {
        let config = configurations[i];
        assert(limits[i as int] == config@);
        if config.effective_at <= observation.observed_at && same_text(
            config.freezer_id.as_str(),
            observation.freezer_id.as_str(),
        ) {
            let better: bool = match best {
                Some(k) => {
                    assert(limits[k as int] == configurations@[k as int]@);
                    configurations[k].effective_at < config.effective_at
                },
                None => true,
            };
            if better {
                best = Some(i);
            }
        }
        i = i + 1;
    }
    match best {
        Some(k) => {
            let config = configurations[k];
            proof {
                assert(limits[k as int] == config@);
                assert(model::in_force(limits, obs, config@)) by {
                    assert(limits.contains(limits[k as int]));
                    assert forall|other: Limit| #[trigger]
                        limits.contains(other) && other.freezer == obs.freezer
                            && other.effective_at <= obs.observed_at implies other.effective_at
                        <= config@.effective_at by {
                        let j = choose|j: int| 0 <= j < limits.len() && limits[j] == other;
                        assert(limits[j].effective_at <= limits[k as int].effective_at);
                    }
                }
                lemma_one_in_force(limits, obs, config@, model::limit_of(limits, obs));
            }
            Some(
                Evaluated {
                    observation,
                    config,
                    outside: observation.temp_tenths < config.min_temp_tenths
                        || observation.temp_tenths > config.max_temp_tenths,
                },
            )
        },
        None => {
            proof {
                if model::is_limited(limits, obs) {
                    let limit = choose|limit: Limit| #[trigger] model::in_force(limits, obs, limit);
                    assert(limits.contains(limit));
                    let j = choose|j: int| 0 <= j < limits.len() && limits[j] == limit;
                    assert(limits[j].freezer == obs.freezer);
                }
            }
            None
        },
    }
}

/// A time with the place of what happened then.
#[derive(Clone, Copy, Debug, PartialEq, Eq, Structural)]
pub struct Moment {
    pub at: i64,
    pub index: usize,
}

impl Ranked for Moment {
    open spec fn le(self, other: Self) -> bool {
        self.at < other.at || (self.at == other.at && self.index <= other.index)
    }

    proof fn le_total(a: Self, b: Self) {
    }

    proof fn le_transitive(a: Self, b: Self, c: Self) {
    }

    fn is_le(self, other: Self) -> bool {
        self.at < other.at || (self.at == other.at && self.index <= other.index)
    }
}

/// A listing from the earliest to the latest is the only one.
pub proof fn lemma_timeline_unique(a: Seq<Obs>, b: Seq<Obs>)
    requires
        forall|i: int, j: int|
            0 <= i < j < a.len() ==> model::earlier(#[trigger] a[i], #[trigger] a[j]),
        forall|i: int, j: int|
            0 <= i < j < b.len() ==> model::earlier(#[trigger] b[i], #[trigger] b[j]),
        forall|obs: Obs| #[trigger] a.contains(obs) <==> b.contains(obs),
    ensures
        a == b,
    decreases a.len(),
{
    if a.len() == 0 {
        if b.len() > 0 {
            assert(b.contains(b[0]));
            assert(a.contains(b[0]));
        }
        assert(a =~= b);
    } else {
        assert(a.contains(a[0]));
        assert(b.contains(a[0]));
        assert(b.contains(b[0]));
        assert(a.contains(b[0]));
        let i = choose|i: int| 0 <= i < b.len() && b[i] == a[0];
        let j = choose|j: int| 0 <= j < a.len() && a[j] == b[0];
        if a[0] != b[0] {
            assert(model::earlier(b[0], b[i]));
            assert(model::earlier(a[0], a[j]));
            text::lemma_text_total(a[0].id, b[0].id);
            assert(false);
        }
        let ra = a.drop_first();
        let rb = b.drop_first();
        assert forall|obs: Obs| #[trigger] ra.contains(obs) <==> rb.contains(obs) by {
            text::lemma_text_total(obs.id, obs.id);
            if ra.contains(obs) {
                let k = choose|k: int| 0 <= k < ra.len() && ra[k] == obs;
                assert(a[k + 1] == obs);
                assert(model::earlier(a[0], a[k + 1]));
                assert(a.contains(obs));
                assert(b.contains(obs));
                let m = choose|m: int| 0 <= m < b.len() && b[m] == obs;
                assert(m > 0);
                assert(rb[m - 1] == obs);
            }
            if rb.contains(obs) {
                let k = choose|k: int| 0 <= k < rb.len() && rb[k] == obs;
                assert(b[k + 1] == obs);
                assert(model::earlier(b[0], b[k + 1]));
                assert(b.contains(obs));
                assert(a.contains(obs));
                let m = choose|m: int| 0 <= m < a.len() && a[m] == obs;
                assert(m > 0);
                assert(ra[m - 1] == obs);
            }
        }
        lemma_timeline_unique(ra, rb);
        assert(a =~= seq![a[0]] + ra);
        assert(b =~= seq![b[0]] + rb);
    }
}

/// The standing observations of a freezer from the earliest to the latest.
fn timeline_of<'a>(validated: &Validated<'a>, freezer: &str) -> (timeline: Vec<&'a Observation>)
    requires
        validated.sound(),
    ensures
        validate::obs_views(timeline@) == model::timeline(validated.all(), freezer@),
        model::is_timeline(
            validated.all(),
            freezer@,
            model::timeline(validated.all(), freezer@),
        ),
        forall|i: int|
            0 <= i < timeline@.len() ==> (#[trigger] timeline@[i]).observed_at >= 0,
{
    let ghost all = validated.all();
    let mut moments: Vec<Moment> = Vec::new();
    let mut i: usize = 0;
    while i < validated.observations.len()
        invariant
            i <= validated.observations@.len() == all.len(),
            validated.sound(),
            all == validated.all(),
            forall|k: int|
                0 <= k < moments@.len() ==> (#[trigger] moments@[k]).index < i && moments@[k].at
                    == all[moments@[k].index as int].observed_at && model::stands(
                    all,
                    all[moments@[k].index as int],
                ) && all[moments@[k].index as int].freezer == freezer@,
            forall|a: int, b: int|
                0 <= a < b < moments@.len() ==> (#[trigger] moments@[a]).index < (
                #[trigger] moments@[b]).index,
            forall|j: int|
                0 <= j < i && model::stands(all, #[trigger] all[j]) && all[j].freezer == freezer@
                    ==> moments@.contains(Moment { at: all[j].observed_at, index: j as usize }),
        decreases validated.observations@.len() - i,
    {
        let observation = validated.observations[i];
        let ghost before = moments@;
        assert(all[i as int] == observation@);
        assert(validated.replaced@[i as int] == !model::stands(all, all[i as int]));
        if !validated.replaced[i] && same_text(observation.freezer_id.as_str(), freezer) {
            moments.push(Moment { at: observation.observed_at, index: i });
            assert(moments@.last() == moments@[moments@.len() - 1]);
        }
        proof {
            assert forall|j: int|
                0 <= j < i + 1 && model::stands(all, #[trigger] all[j]) && all[j].freezer
                    == freezer@ implies moments@.contains(
                Moment { at: all[j].observed_at, index: j as usize },
            ) by {
                if j < i {
                    let moment = Moment { at: all[j].observed_at, index: j as usize };
                    let k = choose|k: int| 0 <= k < before.len() && before[k] == moment;
                    assert(moments@[k] == moment);
                } else {
                    assert(moments@[moments@.len() - 1] == Moment {
                        at: all[j].observed_at,
                        index: j as usize,
                    });
                }
            }
        }
        i = i + 1;
    }
    let sorted = sort(&moments);
    let mut timeline: Vec<&'a Observation> = Vec::new();
    proof {
        assert(moments@.no_duplicates());
        moments@.lemma_multiset_has_no_duplicates();
        sorted@.lemma_multiset_has_no_duplicates_conv();
        assert forall|k: int| 0 <= k < sorted@.len() implies moments@.contains(
            #[trigger] sorted@[k],
        ) by {
            sorting::lemma_arranges_contains(sorted@, moments@, sorted@[k]);
            assert(sorted@.contains(sorted@[k]));
        }
    }
    let mut p: usize = 0;
    while p < sorted.len()
        invariant
            p <= sorted@.len(),
            validated.sound(),
            all == validated.all(),
            all.len() == validated.observations@.len(),
            timeline@.len() == p,
            forall|k: int| 0 <= k < sorted@.len() ==> moments@.contains(#[trigger] sorted@[k]),
            forall|k: int| 0 <= k < moments@.len() ==> (#[trigger] moments@[k]).index < all.len(),
            forall|k: int|
                0 <= k < p ==> (#[trigger] timeline@[k])
                    == validated.observations@[sorted@[k].index as int],
        decreases sorted@.len() - p,
    {
        proof {
            assert(moments@.contains(sorted@[p as int]));
            let k = choose|k: int| 0 <= k < moments@.len() && moments@[k] == sorted@[p as int];
            assert(moments@[k].index < all.len());
        }
        timeline.push(validated.observations[sorted[p].index]);
        p = p + 1;
    }
    proof {
        let shown = validate::obs_views(timeline@);
        assert forall|k: int| 0 <= k < sorted@.len() implies {
            let x = #[trigger] sorted@[k];
            &&& x.index < all.len()
            &&& x.at == all[x.index as int].observed_at
            &&& model::stands(all, all[x.index as int])
            &&& all[x.index as int].freezer == freezer@
            &&& shown[k] == all[x.index as int]
            &&& timeline@[k].observed_at >= 0
        } by {
            assert(moments@.contains(sorted@[k]));
            let m = choose|m: int| 0 <= m < moments@.len() && moments@[m] == sorted@[k];
            assert(moments@[m].index < all.len());
            assert(shown[k] == timeline@[k]@);
            assert(timeline@[k] == validated.observations@[sorted@[k].index as int]);
            assert(all[sorted@[k].index as int] == validated.observations@[sorted@[k].index as int]@);
        }
        assert forall|a: int, b: int| 0 <= a < b < shown.len() implies model::earlier(
            #[trigger] shown[a],
            #[trigger] shown[b],
        ) by {
            let x = sorted@[a];
            let y = sorted@[b];
            assert(x.le(y));
            assert(x != y);
            assert(shown[a] == all[x.index as int]);
            assert(shown[b] == all[y.index as int]);
            if x.at == y.at {
                assert(text::text_lt(all[x.index as int].id, all[y.index as int].id));
            }
        }
        assert forall|obs: Obs| #[trigger]
            shown.contains(obs) <==> model::stands(all, obs) && obs.freezer == freezer@ by {
            if shown.contains(obs) {
                let k = choose|k: int| 0 <= k < shown.len() && shown[k] == obs;
                assert(shown[k] == all[sorted@[k].index as int]);
            }
            if model::stands(all, obs) && obs.freezer == freezer@ {
                let j = choose|j: int| 0 <= j < all.len() && all[j] == obs;
                let moment = Moment { at: all[j].observed_at, index: j as usize };
                assert(model::stands(all, all[j]));
                assert(moments@.contains(moment));
                sorting::lemma_arranges_contains(sorted@, moments@, moment);
                let k = choose|k: int| 0 <= k < sorted@.len() && sorted@[k] == moment;
                assert(shown[k] == all[j]);
            }
        }
        assert(model::is_timeline(all, freezer@, shown));
        lemma_timeline_unique(shown, model::timeline(all, freezer@));
    }
    timeline
}

proof fn lemma_gap_stays(timeline: Seq<Obs>, limits: Seq<Limit>, n: nat, m: nat)
    requires
        n <= m,
        model::first_gap(timeline, limits, n) is Some,
    ensures
        model::first_gap(timeline, limits, m) == model::first_gap(timeline, limits, n),
    decreases m,
{
    if n < m {
        lemma_gap_stays(timeline, limits, n, (m - 1) as nat);
    }
}

/// Holds each observation of a timeline against the limit in force.
fn evaluate_all<'a>(
    configurations: &Vec<&'a Config>,
    timeline: &Vec<&'a Observation>,
) -> (result: Result<Vec<Evaluated<'a>>, String>)
    requires
        validate::unambiguous(validate::limit_views(configurations@)),
        forall|i: int|
            0 <= i < timeline@.len() ==> (#[trigger] timeline@[i]).observed_at >= 0,
    ensures
        ({
            let limits = validate::limit_views(configurations@);
            let shown = validate::obs_views(timeline@);
            match result {
                Ok(run) => model::first_gap(shown, limits, shown.len()) is None && readings(run@)
                    == model::readings_of(limits, shown) && timed(run@),
                Err(fault) => model::first_gap(shown, limits, shown.len()) == Some(fault@),
            }
        }),
{
    let ghost limits = validate::limit_views(configurations@);
    let ghost shown = validate::obs_views(timeline@);
    let mut run: Vec<Evaluated<'a>> = Vec::new();
    let mut i: usize = 0;
    while i < timeline.len()
        invariant
            i <= timeline@.len(),
            validate::unambiguous(limits),
            limits == validate::limit_views(configurations@),
            shown == validate::obs_views(timeline@),
            forall|k: int|
                0 <= k < timeline@.len() ==> (#[trigger] timeline@[k]).observed_at >= 0,
            model::first_gap(shown, limits, i as nat) is None,
            run@.len() == i,
            forall|k: int|
                0 <= k < i ==> (#[trigger] run@[k])@ == model::reading_of(limits, shown[k]),
            timed(run@),
        decreases timeline@.len() - i,
    {
        let observation = timeline[i];
        assert(shown[i as int] == observation@);
        match evaluate(configurations, observation) {
            Some(reading) => {
                run.push(reading);
            },
            None => {
                proof {
                    lemma_gap_stays(shown, limits, (i + 1) as nat, shown.len());
                }
                return Err(
                    joined(
                        "no valid limit for observation ",
                        observation.observation_id.as_str(),
                    ),
                );
            },
        }
        i = i + 1;
    }
    assert(readings(run@) =~= model::readings_of(limits, shown));
    Ok(run)
}

/// The names of the freezers with standing observations, in order.
fn freezer_names<'a>(validated: &Validated<'a>) -> (names: Vec<&'a str>)
    requires
        validated.sound(),
    ensures
        names@.len() == text::in_order(model::freezer_ids(validated.all())).len(),
        forall|k: int|
            0 <= k < names@.len() ==> (#[trigger] names@[k])@ == text::in_order(
                model::freezer_ids(validated.all()),
            )[k],
{
    let ghost all = validated.all();
    let mut found: Vec<&'a str> = Vec::new();
    let mut i: usize = 0;
    while i < validated.observations.len()
        invariant
            i <= validated.observations@.len() == all.len(),
            validated.sound(),
            all == validated.all(),
            forall|k: int|
                0 <= k < found@.len() ==> model::freezer_ids(all).contains(
                    (#[trigger] found@[k])@,
                ),
            forall|j: int|
                0 <= j < i && model::stands(all, #[trigger] all[j]) ==> text::text_set(
                    found@,
                ).contains(all[j].freezer),
        decreases validated.observations@.len() - i,
    {
        let observation = validated.observations[i];
        let ghost before = found@;
        assert(all[i as int] == observation@);
        assert(validated.replaced@[i as int] == !model::stands(all, all[i as int]));
        if !validated.replaced[i] {
            found.push(observation.freezer_id.as_str());
        }
        proof {
            assert forall|j: int|
                0 <= j < i + 1 && model::stands(all, #[trigger] all[j]) implies text::text_set(
                found@,
            ).contains(all[j].freezer) by {
                if j < i {
                    assert(text::text_set(before).contains(all[j].freezer));
                    let k = choose|k: int|
                        0 <= k < before.len() && (#[trigger] before[k])@ == all[j].freezer;
                    assert(found@[k] == before[k]);
                } else {
                    assert(found@[found@.len() - 1]@ == all[j].freezer);
                }
            }
            assert forall|k: int| 0 <= k < found@.len() implies model::freezer_ids(all).contains(
                (#[trigger] found@[k])@,
            ) by {
                if k < before.len() {
                    assert(found@[k] == before[k]);
                } else {
                    assert(model::stands(all, all[i as int]));
                }
            }
        }
        i = i + 1;
    }
    let places = first_places(&found);
    let mut names: Vec<&'a str> = Vec::new();
    let mut p: usize = 0;
    while p < places.len()
        invariant
            p <= places@.len(),
            text::firsts(places@, found@),
            names@.len() == p,
            forall|k: int| 0 <= k < p ==> (#[trigger] names@[k]) == found@[places@[k] as int],
        decreases places@.len() - p,
    {
        assert(places@[p as int] < found@.len());
        names.push(found[places[p]]);
        p = p + 1;
    }
    proof {
        let ids = model::freezer_ids(all);
        let listed = names@.map_values(|name: &str| name@);
        assert(text::lists(listed, ids)) by {
            assert forall|a: int, b: int| 0 <= a < b < listed.len() implies text::text_lt(
                #[trigger] listed[a],
                #[trigger] listed[b],
            ) by {
                assert(listed[a] == found@[places@[a] as int]@);
                assert(listed[b] == found@[places@[b] as int]@);
            }
            assert forall|t: Seq<char>| #[trigger] listed.contains(t) <==> ids.contains(t) by {
                if listed.contains(t) {
                    let k = choose|k: int| 0 <= k < listed.len() && listed[k] == t;
                    assert(places@[k] < found@.len());
                    assert(found@[places@[k] as int]@ == t);
                }
                if ids.contains(t) {
                    let obs = choose|obs: Obs| #[trigger]
                        model::stands(all, obs) && obs.freezer == t;
                    let j = choose|j: int| 0 <= j < all.len() && all[j] == obs;
                    assert(model::stands(all, all[j]));
                    assert(text::text_set(found@).contains(t));
                    let q = choose|q: int| 0 <= q < found@.len() && (#[trigger] found@[q])@ == t;
                    assert(text::covered(places@, found@, found@[q]@));
                    let k = choose|k: int|
                        0 <= k < places@.len() && found@[#[trigger] places@[k] as int]@ == t;
                    assert(listed[k] == t);
                }
            }
        }
        text::lemma_in_order(listed, ids);
        assert forall|k: int| 0 <= k < names@.len() implies (#[trigger] names@[k])@
            == text::in_order(ids)[k] by {
            assert(listed[k] == names@[k]@);
        }
    }
    names
}

/// Whether a freezer has a limit at all.
fn has_limits(configurations: &Vec<&Config>, freezer: &str) -> (found: bool)
    ensures
        found == model::is_configured(validate::limit_views(configurations@), freezer@),
{
    let ghost limits = validate::limit_views(configurations@);
    let mut i: usize = 0;
    while i < configurations.len()
        invariant
            i <= configurations@.len(),
            limits == validate::limit_views(configurations@),
            forall|j: int| 0 <= j < i ==> (#[trigger] limits[j]).freezer != freezer@,
        decreases configurations@.len() - i,
    {
        assert(limits[i as int] == configurations@[i as int]@);
        if same_text(configurations[i].freezer_id.as_str(), freezer) {
            return true;
        }
        i = i + 1;
    }
    false
}

proof fn lemma_freezer_fault_stays(all: Seq<Obs>, limits: Seq<Limit>, n: nat, m: nat)
    requires
        n <= m,
        model::first_freezer_fault(all, limits, n) is Some,
    ensures
        model::first_freezer_fault(all, limits, m) == model::first_freezer_fault(all, limits, n),
    decreases m,
{
    if n < m {
        lemma_freezer_fault_stays(all, limits, n, (m - 1) as nat);
    }
}

/// What keeps an archive from being told freezer by freezer.
pub open spec fn reference_fault(all: Seq<Obs>, limits: Seq<Limit>) -> Option<Seq<char>> {
    model::first_freezer_fault(all, limits, text::in_order(model::freezer_ids(all)).len())
}

/// What keeps an archive from being told observation by observation.
pub open spec fn candidate_fault(all: Seq<Obs>, limits: Seq<Limit>) -> Option<Seq<char>> {
    model::first_unlimited(all, limits, all.len())
}

/// Tells the incidents freezer by freezer.
pub fn reference_reduce(validated: &Validated) -> (result: Result<Export, String>)
    requires
        validated.sound(),
    ensures
        match result {
            Ok(export) => reference_fault(validated.all(), validated.limits()) is None && export@
                == model::export_of(validated.all(), validated.limits()),
            Err(fault) => reference_fault(validated.all(), validated.limits()) == Some(fault@),
        },
{
    let ghost all = validated.all();
    let ghost limits = validated.limits();
    let ghost ids = text::in_order(model::freezer_ids(all));
    let names = freezer_names(validated);
    let mut freezers: Vec<FreezerExport> = Vec::new();
    let mut k: usize = 0;
    while k < names.len()
        invariant
            k <= names@.len() == ids.len(),
            validated.sound(),
            all == validated.all(),
            limits == validated.limits(),
            ids == text::in_order(model::freezer_ids(all)),
            forall|q: int| 0 <= q < names@.len() ==> (#[trigger] names@[q])@ == ids[q],
            model::first_freezer_fault(all, limits, k as nat) is None,
            freezers@.len() == k,
            forall|q: int|
                0 <= q < k ==> (#[trigger] freezers@[q])@ == model::freezer_of(
                    all,
                    limits,
                    ids[q],
                ),
        decreases names@.len() - k,
    {
        let name = names[k];
        assert(name@ == ids[k as int]);
        if !has_limits(&validated.configurations, name) {
            proof {
                lemma_freezer_fault_stays(all, limits, (k + 1) as nat, ids.len());
            }
            return Err(joined("no valid limit for freezer ", name));
        }
        let timeline = timeline_of(validated, name);
        match evaluate_all(&validated.configurations, &timeline) {
            Ok(run) => {
                freezers.push(reference_replay(name, &run));
            },
            Err(fault) => {
                proof {
                    lemma_freezer_fault_stays(all, limits, (k + 1) as nat, ids.len());
                }
                return Err(fault);
            },
        }
        k = k + 1;
    }
    let export = Export { freezers };
    assert(export@ =~= model::export_of(all, limits));
    Ok(export)
}

proof fn lemma_unlimited_stays(all: Seq<Obs>, limits: Seq<Limit>, n: nat, m: nat)
    requires
        n <= m,
        model::first_unlimited(all, limits, n) is Some,
    ensures
        model::first_unlimited(all, limits, m) == model::first_unlimited(all, limits, n),
    decreases m,
{
    if n < m {
        lemma_unlimited_stays(all, limits, n, (m - 1) as nat);
    }
}

/// Where nothing is without a limit, no observation that stands is.
pub proof fn lemma_all_limited(all: Seq<Obs>, limits: Seq<Limit>, n: nat, k: int)
    requires
        n <= all.len(),
        model::first_unlimited(all, limits, n) is None,
        0 <= k < n,
        model::stands(all, all[k]),
    ensures
        model::is_limited(limits, all[k]),
    decreases n,
{
    if k < n - 1 {
        lemma_all_limited(all, limits, (n - 1) as nat, k);
    }
}

/// A timeline of limited observations has no gap.
pub proof fn lemma_no_gap(timeline: Seq<Obs>, limits: Seq<Limit>, n: nat)
    requires
        n <= timeline.len(),
        forall|i: int| 0 <= i < n ==> model::is_limited(limits, #[trigger] timeline[i]),
    ensures
        model::first_gap(timeline, limits, n) is None,
    decreases n,
{
    if n > 0 {
        lemma_no_gap(timeline, limits, (n - 1) as nat);
    }
}

/// The first standing observation without a limit, in identity order.
fn find_unlimited(validated: &Validated) -> (fault: Option<String>)
    requires
        validated.sound(),
    ensures
        match fault {
            Some(fault) => candidate_fault(validated.all(), validated.limits()) == Some(fault@),
            None => candidate_fault(validated.all(), validated.limits()) is None,
        },
{
    let ghost all = validated.all();
    let ghost limits = validated.limits();
    let mut i: usize = 0;
    while i < validated.observations.len()
        invariant
            i <= validated.observations@.len() == all.len(),
            validated.sound(),
            all == validated.all(),
            limits == validated.limits(),
            model::first_unlimited(all, limits, i as nat) is None,
        decreases validated.observations@.len() - i,
    {
        let observation = validated.observations[i];
        assert(all[i as int] == observation@);
        assert(validated.replaced@[i as int] == !model::stands(all, all[i as int]));
        if !validated.replaced[i] && evaluate(&validated.configurations, observation).is_none() {
            proof {
                lemma_unlimited_stays(all, limits, (i + 1) as nat, all.len());
            }
            return Some(
                joined("no valid limit for observation ", observation.observation_id.as_str()),
            );
        }
        i = i + 1;
    }
    None
}

/// Tells the incidents once every standing observation has its limit.
pub fn candidate_reduce(validated: &Validated) -> (result: Result<Export, String>)
    requires
        validated.sound(),
    ensures
        match result {
            Ok(export) => candidate_fault(validated.all(), validated.limits()) is None && export@
                == model::export_of(validated.all(), validated.limits()),
            Err(fault) => candidate_fault(validated.all(), validated.limits()) == Some(fault@),
        },
{
    let ghost all = validated.all();
    let ghost limits = validated.limits();
    let ghost ids = text::in_order(model::freezer_ids(all));
    if let Some(fault) = find_unlimited(validated) {
        return Err(fault);
    }
    let names = freezer_names(validated);
    let mut freezers: Vec<FreezerExport> = Vec::new();
    let mut k: usize = 0;
    while k < names.len()
        invariant
            k <= names@.len() == ids.len(),
            validated.sound(),
            all == validated.all(),
            limits == validated.limits(),
            ids == text::in_order(model::freezer_ids(all)),
            candidate_fault(all, limits) is None,
            forall|q: int| 0 <= q < names@.len() ==> (#[trigger] names@[q])@ == ids[q],
            freezers@.len() == k,
            forall|q: int|
                0 <= q < k ==> (#[trigger] freezers@[q])@ == model::freezer_of(
                    all,
                    limits,
                    ids[q],
                ),
        decreases names@.len() - k,
    {
        let name = names[k];
        assert(name@ == ids[k as int]);
        let timeline = timeline_of(validated, name);
        proof {
            lemma_timeline_limited(all, limits, name@);
        }
        match evaluate_all(&validated.configurations, &timeline) {
            Ok(run) => {
                freezers.push(candidate_replay(name, &run));
            },
            Err(fault) => {
                return Err(fault);
            },
        }
        k = k + 1;
    }
    let export = Export { freezers };
    assert(export@ =~= model::export_of(all, limits));
    Ok(export)
}

pub proof fn lemma_timeline_limited(all: Seq<Obs>, limits: Seq<Limit>, freezer: Seq<char>)
    requires
        candidate_fault(all, limits) is None,
        model::is_timeline(all, freezer, model::timeline(all, freezer)),
    ensures
        ({
            let timeline = model::timeline(all, freezer);
            model::first_gap(timeline, limits, timeline.len()) is None
        }),
{
    let timeline = model::timeline(all, freezer);
    assert forall|i: int| 0 <= i < timeline.len() implies model::is_limited(
        limits,
        #[trigger] timeline[i],
    ) by {
        assert(timeline.contains(timeline[i]));
        assert(model::stands(all, timeline[i]));
        let k = choose|k: int| 0 <= k < all.len() && all[k] == timeline[i];
        lemma_all_limited(all, limits, all.len(), k);
    }
    lemma_no_gap(timeline, limits, timeline.len());
}

/// Why a repair did not take place.
#[derive(Debug, Clone)]
pub struct RepairError {
    message: String,
}

impl RepairError {
    pub closed spec fn text(&self) -> Seq<char> {
        self.message@
    }

    pub fn new(message: String) -> (error: Self)
        ensures
            error.text() == message@,
    {
        RepairError { message }
    }

    pub fn message(&self) -> (message: &str)
        ensures
            message@ == self.text(),
    {
        self.message.as_str()
    }
}

/// Why a repair freezer by freezer is refused, if it is.
pub open spec fn reference_error(records: Seq<model::Entry>) -> Option<Seq<char>> {
    match model::archive_error(records) {
        Some(fault) => Some(fault),
        None => reference_fault(model::observations(records), model::configurations(records)),
    }
}

/// How many records an archive holds without its repetitions.
pub open spec fn accepted_count(records: Seq<model::Entry>) -> nat {
    model::observations(records).len() + model::configurations(records).len()
}

/// Why a repair that was indexed is refused, if it is.
pub open spec fn candidate_error(records: Seq<model::Entry>, indexed_count: nat) -> Option<
    Seq<char>,
> {
    match model::archive_error(records) {
        Some(fault) => Some(fault),
        None => if indexed_count != accepted_count(records) {
            Some(
                "disposable Fold index has "@ + text::decimal(indexed_count)
                    + " records; archive has "@ + text::decimal(accepted_count(records)),
            )
        } else {
            candidate_fault(model::observations(records), model::configurations(records))
        },
    }
}

/// The incidents of an archive.
pub open spec fn repaired(records: Seq<model::Entry>) -> Seq<Freezer> {
    model::export_of(model::observations(records), model::configurations(records))
}

/// Rebuilds the incidents from a whole archive.
pub fn reference_from_records(records: &[Record]) -> (result: Result<Export, RepairError>)
    ensures
        match result {
            Ok(export) => reference_error(model::entries(records@)) is None && export@ == repaired(
                model::entries(records@),
            ),
            Err(error) => reference_error(model::entries(records@)) == Some(error.text()),
        },
{
    match validate(records) {
        Ok(validated) => match reference_reduce(&validated) {
            Ok(export) => Ok(export),
            Err(fault) => Err(RepairError::new(fault)),
        },
        Err(fault) => Err(RepairError::new(fault)),
    }
}

/// An archive holds no more than its records.
proof fn lemma_accepted_count(records: Seq<model::Entry>)
    ensures
        accepted_count(records) <= records.len(),
{
    let a = text::in_order(model::observation_ids(records));
    let b = text::in_order(model::configuration_ids(records));
    validate::lemma_ids_listed(records);
    let places = Seq::new(
        a.len() + b.len(),
        |k: int|
            if k < a.len() {
                choose|i: int|
                    0 <= i < records.len() && model::observation_id(#[trigger] records[i]) == Some(
                        a[k],
                    )
            } else {
                choose|i: int|
                    0 <= i < records.len() && model::configuration_id(#[trigger] records[i])
                        == Some(b[k - a.len()])
            },
    );
    assert forall|k: int| 0 <= k < places.len() implies 0 <= #[trigger] places[k] < records.len()
        && (if k < a.len() {
        model::observation_id(records[places[k]]) == Some(a[k])
    } else {
        model::configuration_id(records[places[k]]) == Some(b[k - a.len()])
    }) by {
        if k < a.len() {
            assert(a.contains(a[k]));
        } else {
            assert(b.contains(b[k - a.len()]));
        }
    }
    assert(places.no_duplicates()) by {
        assert forall|x: int, y: int| 0 <= x < y < places.len() implies places[x] != places[y] by {
            if y < a.len() {
                assert(text::text_lt(a[x], a[y]));
            } else if x >= a.len() {
                assert(text::text_lt(b[x - a.len()], b[y - a.len()]));
            }
        }
    }
    places.unique_seq_to_set();
    let range = vstd::set_lib::set_int_range(0, records.len() as int);
    vstd::set_lib::lemma_int_range(0, records.len() as int);
    assert(places.to_set().subset_of(range));
    vstd::set_lib::lemma_len_subset(places.to_set(), range);
}

/// Repairs an archive of which an index holds `indexed_count` records.
pub fn candidate_from_records(records: &[Record], indexed_count: usize) -> (result: Result<
    Export,
    RepairError,
>)
    ensures
        match result {
            Ok(export) => candidate_error(model::entries(records@), indexed_count as nat) is None
                && export@ == repaired(model::entries(records@)),
            Err(error) => candidate_error(model::entries(records@), indexed_count as nat) == Some(
                error.text(),
            ),
        },
{
    let validated = match validate(records) {
        Ok(validated) => validated,
        Err(fault) => {
            return Err(RepairError::new(fault));
        },
    };
    let held: usize = records.len();
    proof {
        lemma_accepted_count(model::entries(records@));
        assert(accepted_count(model::entries(records@)) <= held);
        assert(validated.all().len() == validated.observations@.len());
        assert(validated.limits().len() == validated.configurations@.len());
    }
    let expected: u64 = validated.observations.len() as u64 + validated.configurations.len() as u64;
    if indexed_count as u64 != expected {
        let mut fault = "disposable Fold index has ".to_owned();
        push_decimal(&mut fault, indexed_count as u64);
        fault.append(" records; archive has ");
        push_decimal(&mut fault, expected);
        return Err(RepairError::new(fault));
    }
    match candidate_reduce(&validated) {
        Ok(export) => Ok(export),
        Err(fault) => Err(RepairError::new(fault)),
    }
}

} // verus!
