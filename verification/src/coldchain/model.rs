//! Archived records, and the incidents that they tell of.

use vstd::prelude::*;
use crate::text;

verus! {

#[derive(Debug, Clone, PartialEq, Eq)]
pub enum Record {
    Observation(Observation),
    Configuration(Config),
}

#[derive(Debug, Clone, PartialEq, Eq)]
pub struct Observation {
    pub observation_id: String,
    pub freezer_id: String,
    pub observed_at: i64,
    pub received_at: i64,
    pub temp_tenths: i32,
    pub gateway_sequence: u64,
    pub replaces_observation_id: Option<String>,
}

#[derive(Debug, Clone, PartialEq, Eq)]
pub struct Config {
    pub configuration_id: String,
    pub freezer_id: String,
    pub effective_at: i64,
    pub min_temp_tenths: i32,
    pub max_temp_tenths: i32,
}

#[derive(Debug, Clone, PartialEq, Eq)]
pub struct Export {
    pub freezers: Vec<FreezerExport>,
}

#[derive(Debug, Clone, PartialEq, Eq)]
pub struct FreezerExport {
    pub freezer_id: String,
    pub current_status: String,
    pub incidents: Vec<Incident>,
}

#[derive(Debug, Clone, PartialEq, Eq)]
pub struct Incident {
    pub opened: Transition,
    pub closed: Option<Transition>,
}

#[derive(Debug, Clone, PartialEq, Eq)]
pub struct Transition {
    pub action: String,
    pub at: i64,
    pub trigger_observation_id: String,
    pub reason: String,
    pub contributing_observation_ids: Vec<String>,
    pub configuration_ids: Vec<String>,
}

/// An observation as plain values.
pub struct Obs {
    pub id: Seq<char>,
    pub freezer: Seq<char>,
    pub observed_at: i64,
    pub received_at: i64,
    pub temp_tenths: i32,
    pub gateway_sequence: u64,
    pub replaces: Option<Seq<char>>,
}

impl View for Observation {
    type V = Obs;

    open spec fn view(&self) -> Obs {
        Obs {
            id: self.observation_id@,
            freezer: self.freezer_id@,
            observed_at: self.observed_at,
            received_at: self.received_at,
            temp_tenths: self.temp_tenths,
            gateway_sequence: self.gateway_sequence,
            replaces: match self.replaces_observation_id {
                Some(target) => Some(target@),
                None => None,
            },
        }
    }
}

/// A configuration as plain values.
pub struct Limit {
    pub id: Seq<char>,
    pub freezer: Seq<char>,
    pub effective_at: i64,
    pub min_temp_tenths: i32,
    pub max_temp_tenths: i32,
}

impl View for Config {
    type V = Limit;

    open spec fn view(&self) -> Limit {
        Limit {
            id: self.configuration_id@,
            freezer: self.freezer_id@,
            effective_at: self.effective_at,
            min_temp_tenths: self.min_temp_tenths,
            max_temp_tenths: self.max_temp_tenths,
        }
    }
}

/// A record as plain values.
pub enum Entry {
    Observation(Obs),
    Configuration(Limit),
}

impl View for Record {
    type V = Entry;

    open spec fn view(&self) -> Entry {
        match self {
            Record::Observation(observation) => Entry::Observation(observation@),
            Record::Configuration(config) => Entry::Configuration(config@),
        }
    }
}

pub open spec fn entries(records: Seq<Record>) -> Seq<Entry> {
    records.map_values(|record: Record| record@)
}

/// A transition as plain values.
#[verifier::ext_equal]
pub struct Turn {
    pub action: Seq<char>,
    pub at: i64,
    pub trigger: Seq<char>,
    pub reason: Seq<char>,
    pub contributing: Seq<Seq<char>>,
    pub configurations: Seq<Seq<char>>,
}

pub open spec fn texts(strings: Seq<String>) -> Seq<Seq<char>> {
    strings.map_values(|string: String| string@)
}

impl View for Transition {
    type V = Turn;

    open spec fn view(&self) -> Turn {
        Turn {
            action: self.action@,
            at: self.at,
            trigger: self.trigger_observation_id@,
            reason: self.reason@,
            contributing: texts(self.contributing_observation_ids@),
            configurations: texts(self.configuration_ids@),
        }
    }
}

/// An incident as plain values.
#[verifier::ext_equal]
pub struct Episode {
    pub opened: Turn,
    pub closed: Option<Turn>,
}

impl View for Incident {
    type V = Episode;

    open spec fn view(&self) -> Episode {
        Episode {
            opened: self.opened@,
            closed: match self.closed {
                Some(closed) => Some(closed@),
                None => None,
            },
        }
    }
}

pub open spec fn episodes(incidents: Seq<Incident>) -> Seq<Episode> {
    incidents.map_values(|incident: Incident| incident@)
}

/// What is exported of a freezer, as plain values.
#[verifier::ext_equal]
pub struct Freezer {
    pub id: Seq<char>,
    pub status: Seq<char>,
    pub incidents: Seq<Episode>,
}

impl View for FreezerExport {
    type V = Freezer;

    open spec fn view(&self) -> Freezer {
        Freezer {
            id: self.freezer_id@,
            status: self.current_status@,
            incidents: episodes(self.incidents@),
        }
    }
}

impl View for Export {
    type V = Seq<Freezer>;

    open spec fn view(&self) -> Seq<Freezer> {
        self.freezers@.map_values(|freezer: FreezerExport| freezer@)
    }
}

/// The identity of record `i`, if it is an observation.
pub open spec fn observation_id(entry: Entry) -> Option<Seq<char>> {
    match entry {
        Entry::Observation(obs) => Some(obs.id),
        Entry::Configuration(_) => None,
    }
}

pub open spec fn configuration_id(entry: Entry) -> Option<Seq<char>> {
    match entry {
        Entry::Observation(_) => None,
        Entry::Configuration(limit) => Some(limit.id),
    }
}

/// What is wrong with an observation by itself.
pub open spec fn observation_fault(obs: Obs) -> Option<Seq<char>> {
    if obs.id.len() == 0 || obs.freezer.len() == 0 {
        Some("observation identifiers must not be empty"@)
    } else if obs.observed_at < 0 || obs.received_at < 0 || obs.received_at < obs.observed_at {
        Some("malformed timestamp on observation "@ + obs.id)
    } else if obs.replaces matches Some(target) && target.len() == 0 {
        Some("empty correction target on observation "@ + obs.id)
    } else {
        None
    }
}

/// What is wrong with a configuration by itself.
pub open spec fn configuration_fault(limit: Limit) -> Option<Seq<char>> {
    if limit.id.len() == 0 || limit.freezer.len() == 0 {
        Some("configuration identifiers must not be empty"@)
    } else if limit.effective_at < 0 {
        Some("malformed timestamp on configuration "@ + limit.id)
    } else if limit.min_temp_tenths > limit.max_temp_tenths {
        Some("invalid temperature band on configuration "@ + limit.id)
    } else {
        None
    }
}

/// An earlier observation has the identity of record `i`, and differs.
pub open spec fn contests_observation(records: Seq<Entry>, i: int) -> bool {
    exists|j: int|
        0 <= j < i && observation_id(#[trigger] records[j]) is Some && observation_id(records[j])
            == observation_id(records[i]) && records[j] != records[i]
}

/// An earlier configuration has the identity of record `i`, and differs.
pub open spec fn contests_configuration(records: Seq<Entry>, i: int) -> bool {
    exists|j: int|
        0 <= j < i && configuration_id(#[trigger] records[j]) is Some && configuration_id(
            records[j],
        ) == configuration_id(records[i]) && records[j] != records[i]
}

/// What is wrong with record `i`, where those before it are in order.
pub open spec fn record_fault(records: Seq<Entry>, i: int) -> Option<Seq<char>> {
    match records[i] {
        Entry::Observation(obs) => match observation_fault(obs) {
            Some(fault) => Some(fault),
            None => if contests_observation(records, i) {
                Some("conflicting duplicate observation id "@ + obs.id)
            } else {
                None
            },
        },
        Entry::Configuration(limit) => match configuration_fault(limit) {
            Some(fault) => Some(fault),
            None => if contests_configuration(records, i) {
                Some("conflicting duplicate configuration id "@ + limit.id)
            } else {
                None
            },
        },
    }
}

/// The first fault among the first `n` records.
pub open spec fn first_record_fault(records: Seq<Entry>, n: nat) -> Option<Seq<char>>
    decreases n,
{
    if n == 0 {
        None
    } else {
        match first_record_fault(records, (n - 1) as nat) {
            Some(fault) => Some(fault),
            None => record_fault(records, n - 1),
        }
    }
}

/// The identities of the observations.
pub open spec fn observation_ids(records: Seq<Entry>) -> Set<Seq<char>> {
    Set::new(
        |id: Seq<char>|
            exists|i: int|
                0 <= i < records.len() && observation_id(#[trigger] records[i]) == Some(id),
    )
}

pub open spec fn configuration_ids(records: Seq<Entry>) -> Set<Seq<char>> {
    Set::new(
        |id: Seq<char>|
            exists|i: int|
                0 <= i < records.len() && configuration_id(#[trigger] records[i]) == Some(id),
    )
}

/// The observation with an identity.
pub open spec fn observation_with(records: Seq<Entry>, id: Seq<char>) -> Obs {
    let i = choose|i: int|
        0 <= i < records.len() && observation_id(#[trigger] records[i]) == Some(id);
    records[i]->Observation_0
}

pub open spec fn configuration_with(records: Seq<Entry>, id: Seq<char>) -> Limit {
    let i = choose|i: int|
        0 <= i < records.len() && configuration_id(#[trigger] records[i]) == Some(id);
    records[i]->Configuration_0
}

/// The observations of an archive without its repetitions, in identity order.
pub open spec fn observations(records: Seq<Entry>) -> Seq<Obs> {
    text::in_order(observation_ids(records)).map_values(
        |id: Seq<char>| observation_with(records, id),
    )
}

/// The configurations of an archive without its repetitions, in identity order.
pub open spec fn configurations(records: Seq<Entry>) -> Seq<Limit> {
    text::in_order(configuration_ids(records)).map_values(
        |id: Seq<char>| configuration_with(records, id),
    )
}

/// Observation `j` is the one that observation `k` replaces.
pub open spec fn replaces(all: Seq<Obs>, k: int, j: int) -> bool {
    &&& 0 <= k < all.len()
    &&& 0 <= j < all.len()
    &&& all[k].replaces == Some(all[j].id)
}

/// What is wrong with the correction that observation `k` makes, if it makes one.
pub open spec fn correction_fault(all: Seq<Obs>, k: int) -> Option<Seq<char>> {
    match all[k].replaces {
        None => None,
        Some(target) => if forall|j: int| 0 <= j < all.len() ==> (#[trigger] all[j]).id != target {
            Some("unknown correction target "@ + target)
        } else if exists|j: int|
            0 <= j < all.len() && (#[trigger] all[j]).id == target && all[j].freezer
                != all[k].freezer {
            Some("correction "@ + all[k].id + " crosses freezer boundary"@)
        } else if exists|m: int| 0 <= m < k && (#[trigger] all[m]).replaces == Some(target) {
            Some("multiple corrections replace observation "@ + target)
        } else {
            None
        },
    }
}

pub open spec fn first_correction_fault(all: Seq<Obs>, n: nat) -> Option<Seq<char>>
    decreases n,
{
    if n == 0 {
        None
    } else {
        match first_correction_fault(all, (n - 1) as nat) {
            Some(fault) => Some(fault),
            None => correction_fault(all, n - 1),
        }
    }
}

/// Following corrections from observation `k` for `n` steps is possible.
pub open spec fn reaches(all: Seq<Obs>, k: int, n: nat) -> bool
    decreases n,
{
    n == 0 || exists|j: int| #[trigger] replaces(all, k, j) && reaches(all, j, (n - 1) as nat)
}

/// Following corrections from observation `k` never ends.
pub open spec fn endless(all: Seq<Obs>, k: int) -> bool {
    forall|n: nat| #[trigger] reaches(all, k, n)
}

pub open spec fn first_cycle(all: Seq<Obs>, n: nat) -> Option<Seq<char>>
    decreases n,
{
    if n == 0 {
        None
    } else {
        match first_cycle(all, (n - 1) as nat) {
            Some(fault) => Some(fault),
            None => if endless(all, n - 1) {
                Some("correction cycle includes observation "@ + all[n - 1].id)
            } else {
                None
            },
        }
    }
}

/// A number as text, with its sign.
pub open spec fn signed(value: i64) -> Seq<char> {
    if value < 0 {
        "-"@ + text::decimal((-value) as nat)
    } else {
        text::decimal(value as nat)
    }
}

pub open spec fn same_slot(a: Limit, b: Limit) -> bool {
    a.freezer == b.freezer && a.effective_at == b.effective_at
}

pub open spec fn first_ambiguity(all: Seq<Limit>, n: nat) -> Option<Seq<char>>
    decreases n,
{
    if n == 0 {
        None
    } else {
        match first_ambiguity(all, (n - 1) as nat) {
            Some(fault) => Some(fault),
            None => if exists|m: int| 0 <= m < n - 1 && same_slot(#[trigger] all[m], all[n - 1]) {
                Some(
                    "ambiguous configuration interval for freezer "@ + all[n - 1].freezer
                        + " at "@ + signed(all[n - 1].effective_at),
                )
            } else {
                None
            },
        }
    }
}

/// Why an archive is refused, if it is.
pub open spec fn archive_error(records: Seq<Entry>) -> Option<Seq<char>> {
    let all = observations(records);
    let limits = configurations(records);
    match first_record_fault(records, records.len()) {
        Some(fault) => Some(fault),
        None => match first_correction_fault(all, all.len()) {
            Some(fault) => Some(fault),
            None => match first_cycle(all, all.len()) {
                Some(fault) => Some(fault),
                None => first_ambiguity(limits, limits.len()),
            },
        },
    }
}

/// No correction replaces observation `k`.
pub open spec fn stands(all: Seq<Obs>, obs: Obs) -> bool {
    all.contains(obs) && forall|m: int|
        0 <= m < all.len() ==> (#[trigger] all[m]).replaces != Some(obs.id)
}

/// The limit that is in force when an observation is made.
pub open spec fn in_force(limits: Seq<Limit>, obs: Obs, limit: Limit) -> bool {
    &&& limits.contains(limit)
    &&& limit.freezer == obs.freezer
    &&& limit.effective_at <= obs.observed_at
    &&& forall|other: Limit| #[trigger]
        limits.contains(other) && other.freezer == obs.freezer && other.effective_at
            <= obs.observed_at ==> other.effective_at <= limit.effective_at
}

pub open spec fn is_limited(limits: Seq<Limit>, obs: Obs) -> bool {
    exists|limit: Limit| #[trigger] in_force(limits, obs, limit)
}

pub open spec fn limit_of(limits: Seq<Limit>, obs: Obs) -> Limit {
    choose|limit: Limit| #[trigger] in_force(limits, obs, limit)
}

/// Order of observations in time, then identity.
pub open spec fn earlier(a: Obs, b: Obs) -> bool {
    a.observed_at < b.observed_at || (a.observed_at == b.observed_at && text::text_lt(a.id, b.id))
}

/// The standing observations of a freezer from the earliest to the latest.
pub open spec fn is_timeline(all: Seq<Obs>, freezer: Seq<char>, timeline: Seq<Obs>) -> bool {
    &&& forall|i: int, j: int|
        0 <= i < j < timeline.len() ==> earlier(#[trigger] timeline[i], #[trigger] timeline[j])
    &&& forall|obs: Obs| #[trigger]
        timeline.contains(obs) <==> stands(all, obs) && obs.freezer == freezer
}

pub open spec fn timeline(all: Seq<Obs>, freezer: Seq<char>) -> Seq<Obs> {
    choose|timeline: Seq<Obs>| #[trigger] is_timeline(all, freezer, timeline)
}

/// A reading held against the limit in force.
pub struct Reading {
    pub id: Seq<char>,
    pub at: i64,
    pub configuration: Seq<char>,
    pub outside: bool,
}

pub open spec fn reading_of(limits: Seq<Limit>, obs: Obs) -> Reading {
    let limit = limit_of(limits, obs);
    Reading {
        id: obs.id,
        at: obs.observed_at,
        configuration: limit.id,
        outside: obs.temp_tenths < limit.min_temp_tenths || obs.temp_tenths
            > limit.max_temp_tenths,
    }
}

/// What has been made of the readings so far.
#[verifier::ext_equal]
pub struct Story {
    pub open: bool,
    pub run: Seq<Reading>,
    pub incidents: Seq<Episode>,
}

pub open spec fn used_configurations(run: Seq<Reading>) -> Set<Seq<char>> {
    Set::new(
        |id: Seq<char>| exists|i: int| 0 <= i < run.len() && (#[trigger] run[i]).configuration == id,
    )
}

pub open spec fn turn_of(action: Seq<char>, run: Seq<Reading>, reason: Seq<char>) -> Turn {
    Turn {
        action,
        at: run.last().at,
        trigger: run.last().id,
        reason,
        contributing: run.map_values(|reading: Reading| reading.id),
        configurations: text::in_order(used_configurations(run)),
    }
}

/// Seconds outside that open an incident.
pub const OPENING_SECONDS: i64 = 300;

/// Seconds inside that close one.
pub const CLOSING_SECONDS: i64 = 600;

/// One reading more: readings that go the other way add up to a run, and a run
/// that lasts opens or closes an incident.
pub open spec fn told(story: Story, reading: Reading) -> Story {
    let run = if reading.outside != story.open {
        story.run.push(reading)
    } else {
        Seq::empty()
    };
    let lasting = run.len() > 0 && reading.at - run[0].at >= if story.open {
        CLOSING_SECONDS
    } else {
        OPENING_SECONDS
    };
    if !lasting {
        Story { run, ..story }
    } else if story.open {
        let closed = turn_of("close"@, run, "ten continuous minutes inside configured band"@);
        Story {
            open: false,
            run: Seq::empty(),
            incidents: if story.incidents.len() > 0 {
                story.incidents.update(
                    story.incidents.len() - 1,
                    Episode { closed: Some(closed), ..story.incidents.last() },
                )
            } else {
                story.incidents
            },
        }
    } else {
        let opened = turn_of("open"@, run, "five continuous minutes outside configured band"@);
        Story {
            open: true,
            run: Seq::empty(),
            incidents: story.incidents.push(Episode { opened, closed: None }),
        }
    }
}

pub open spec fn story_of(readings: Seq<Reading>) -> Story
    decreases readings.len(),
{
    if readings.len() == 0 {
        Story { open: false, run: Seq::empty(), incidents: Seq::empty() }
    } else {
        told(story_of(readings.drop_last()), readings.last())
    }
}

pub open spec fn readings_of(limits: Seq<Limit>, timeline: Seq<Obs>) -> Seq<Reading> {
    timeline.map_values(|obs: Obs| reading_of(limits, obs))
}

/// What is exported of a freezer.
pub open spec fn freezer_of(all: Seq<Obs>, limits: Seq<Limit>, id: Seq<char>) -> Freezer {
    let story = story_of(readings_of(limits, timeline(all, id)));
    Freezer {
        id,
        status: if story.open {
            "excursion"@
        } else {
            "normal"@
        },
        incidents: story.incidents,
    }
}

/// The freezers with standing observations.
pub open spec fn freezer_ids(all: Seq<Obs>) -> Set<Seq<char>> {
    Set::new(
        |id: Seq<char>| exists|obs: Obs| #[trigger] stands(all, obs) && obs.freezer == id,
    )
}

/// The export of an archive, its freezers in identity order.
pub open spec fn export_of(all: Seq<Obs>, limits: Seq<Limit>) -> Seq<Freezer> {
    text::in_order(freezer_ids(all)).map_values(|id: Seq<char>| freezer_of(all, limits, id))
}

/// The first standing observation in identity order for which no limit is in force.
pub open spec fn first_unlimited(all: Seq<Obs>, limits: Seq<Limit>, n: nat) -> Option<Seq<char>>
    decreases n,
{
    if n == 0 {
        None
    } else {
        match first_unlimited(all, limits, (n - 1) as nat) {
            Some(fault) => Some(fault),
            None => if stands(all, all[n - 1]) && !is_limited(limits, all[n - 1]) {
                Some("no valid limit for observation "@ + all[n - 1].id)
            } else {
                None
            },
        }
    }
}

pub open spec fn is_configured(limits: Seq<Limit>, freezer: Seq<char>) -> bool {
    exists|i: int| 0 <= i < limits.len() && (#[trigger] limits[i]).freezer == freezer
}

/// The first of the first `n` observations of a timeline without a limit.
pub open spec fn first_gap(timeline: Seq<Obs>, limits: Seq<Limit>, n: nat) -> Option<Seq<char>>
    decreases n,
{
    if n == 0 {
        None
    } else {
        match first_gap(timeline, limits, (n - 1) as nat) {
            Some(fault) => Some(fault),
            None => if !is_limited(limits, timeline[n - 1]) {
                Some("no valid limit for observation "@ + timeline[n - 1].id)
            } else {
                None
            },
        }
    }
}

/// What keeps a freezer from being told.
pub open spec fn freezer_fault(all: Seq<Obs>, limits: Seq<Limit>, id: Seq<char>) -> Option<Seq<char>> {
    if !is_configured(limits, id) {
        Some("no valid limit for freezer "@ + id)
    } else {
        first_gap(timeline(all, id), limits, timeline(all, id).len())
    }
}

/// The first fault among the first `n` freezers in identity order.
pub open spec fn first_freezer_fault(all: Seq<Obs>, limits: Seq<Limit>, n: nat) -> Option<Seq<char>>
    decreases n,
{
    if n == 0 {
        None
    } else {
        match first_freezer_fault(all, limits, (n - 1) as nat) {
            Some(fault) => Some(fault),
            None => freezer_fault(all, limits, text::in_order(freezer_ids(all))[n - 1]),
        }
    }
}

} // verus!
