//! Which archives can be repaired.

use vstd::prelude::*;
use crate::coldchain::model;
use crate::coldchain::model::{Config, Entry, Limit, Obs, Observation, Record};
use crate::text;
use crate::text::{find_text, first_places, joined, joined3, push_decimal, rank_texts, same_text};

verus! {

pub open spec fn obs_views(observations: Seq<&Observation>) -> Seq<Obs> {
    observations.map_values(|observation: &Observation| observation@)
}

pub open spec fn limit_views(configurations: Seq<&Config>) -> Seq<Limit> {
    configurations.map_values(|config: &Config| config@)
}

/// An archive that can be repaired: what it holds without its repetitions, in
/// identity order, and which observations a correction replaces.
pub struct Validated<'a> {
    pub observations: Vec<&'a Observation>,
    pub configurations: Vec<&'a Config>,
    pub replaced: Vec<bool>,
}

/// Identities in strictly ascending order.
pub open spec fn listed(all: Seq<Obs>) -> bool {
    forall|a: int, b: int|
        0 <= a < b < all.len() ==> text::text_lt((#[trigger] all[a]).id, (#[trigger] all[b]).id)
}

/// No two limits of a freezer take effect at once.
pub open spec fn unambiguous(limits: Seq<Limit>) -> bool {
    forall|a: int, b: int|
        0 <= a < b < limits.len() ==> !model::same_slot(
            #[trigger] limits[a],
            #[trigger] limits[b],
        )
}

impl<'a> Validated<'a> {
    pub open spec fn all(&self) -> Seq<Obs> {
        obs_views(self.observations@)
    }

    pub open spec fn limits(&self) -> Seq<Limit> {
        limit_views(self.configurations@)
    }

    /// What repair relies on.
    pub open spec fn sound(&self) -> bool {
        &&& listed(self.all())
        &&& unambiguous(self.limits())
        &&& self.replaced@.len() == self.observations@.len()
        &&& forall|k: int|
            0 <= k < self.replaced@.len() ==> (#[trigger] self.replaced@[k]) == !model::stands(
                self.all(),
                self.all()[k],
            )
        &&& forall|k: int|
            0 <= k < self.observations@.len() ==> (#[trigger] self.observations@[k]).observed_at
                >= 0
    }

    pub open spec fn describes(&self, records: Seq<Entry>) -> bool {
        &&& self.all() == model::observations(records)
        &&& self.limits() == model::configurations(records)
        &&& self.sound()
    }
}

fn validate_observation(observation: &Observation) -> (fault: Option<String>)
    ensures
        match fault {
            Some(fault) => model::observation_fault(observation@) == Some(fault@),
            None => model::observation_fault(observation@) is None,
        },
{
    if observation.observation_id.as_str().is_empty() || observation.freezer_id.as_str().is_empty() {
        return Some("observation identifiers must not be empty".to_owned());
    }
    if observation.observed_at < 0 || observation.received_at < 0 || observation.received_at
        < observation.observed_at {
        return Some(
            joined("malformed timestamp on observation ", observation.observation_id.as_str()),
        );
    }
    if let Some(target) = &observation.replaces_observation_id {
        if target.as_str().is_empty() {
            return Some(
                joined(
                    "empty correction target on observation ",
                    observation.observation_id.as_str(),
                ),
            );
        }
    }
    None
}

fn validate_configuration(config: &Config) -> (fault: Option<String>)
    ensures
        match fault {
            Some(fault) => model::configuration_fault(config@) == Some(fault@),
            None => model::configuration_fault(config@) is None,
        },
{
    if config.configuration_id.as_str().is_empty() || config.freezer_id.as_str().is_empty() {
        return Some("configuration identifiers must not be empty".to_owned());
    }
    if config.effective_at < 0 {
        return Some(
            joined("malformed timestamp on configuration ", config.configuration_id.as_str()),
        );
    }
    if config.min_temp_tenths > config.max_temp_tenths {
        return Some(
            joined("invalid temperature band on configuration ", config.configuration_id.as_str()),
        );
    }
    None
}

pub fn same_observation(a: &Observation, b: &Observation) -> (same: bool)
    ensures
        same == (a@ == b@),
{
    let targets = match (&a.replaces_observation_id, &b.replaces_observation_id) {
        (Some(x), Some(y)) => same_text(x.as_str(), y.as_str()),
        (None, None) => true,
        _ => false,
    };
    let same = same_text(a.observation_id.as_str(), b.observation_id.as_str()) && same_text(
        a.freezer_id.as_str(),
        b.freezer_id.as_str(),
    ) && a.observed_at == b.observed_at && a.received_at == b.received_at && a.temp_tenths
        == b.temp_tenths && a.gateway_sequence == b.gateway_sequence && targets;
    same
}

pub fn same_configuration(a: &Config, b: &Config) -> (same: bool)
    ensures
        same == (a@ == b@),
{
    let same = same_text(a.configuration_id.as_str(), b.configuration_id.as_str()) && same_text(
        a.freezer_id.as_str(),
        b.freezer_id.as_str(),
    ) && a.effective_at == b.effective_at && a.min_temp_tenths == b.min_temp_tenths
        && a.max_temp_tenths == b.max_temp_tenths;
    same
}

/// The identity of a record.
pub open spec fn id_of(entry: Entry) -> Seq<char> {
    match entry {
        Entry::Observation(obs) => obs.id,
        Entry::Configuration(limit) => limit.id,
    }
}

pub open spec fn same_kind(a: Entry, b: Entry) -> bool {
    (a is Observation) == (b is Observation)
}

fn record_id(record: &Record) -> (id: &str)
    ensures
        id@ == id_of(record@),
{
    match record {
        Record::Observation(observation) => observation.observation_id.as_str(),
        Record::Configuration(config) => config.configuration_id.as_str(),
    }
}

fn same_record(a: &Record, b: &Record) -> (same: bool)
    ensures
        same == (a@ == b@),
{
    match (a, b) {
        (Record::Observation(x), Record::Observation(y)) => same_observation(x, y),
        (Record::Configuration(x), Record::Configuration(y)) => same_configuration(x, y),
        _ => false,
    }
}

/// Earlier records of one kind and identity are the same.
pub open spec fn settled(records: Seq<Entry>, n: int) -> bool {
    forall|a: int, b: int|
        0 <= a < b < n && same_kind(#[trigger] records[a], #[trigger] records[b]) && id_of(
            records[a],
        ) == id_of(records[b]) ==> records[a] == records[b]
}

pub proof fn lemma_settled(records: Seq<Entry>, n: nat)
    requires
        n <= records.len(),
        model::first_record_fault(records, n) is None,
    ensures
        settled(records, n as int),
        forall|i: int| 0 <= i < n ==> #[trigger] ok_alone(records[i]),
    decreases n,
{
    if n > 0 {
        lemma_settled(records, (n - 1) as nat);
        let i = n - 1;
        assert(model::record_fault(records, i) is None);
        assert(ok_alone(records[i]));
        assert forall|a: int, b: int|
            0 <= a < b < n && same_kind(#[trigger] records[a], #[trigger] records[b]) && id_of(
                records[a],
            ) == id_of(records[b]) implies records[a] == records[b] by {
            if b == i && records[a] != records[b] {
                if records[b] is Observation {
                    assert(model::contests_observation(records, b));
                } else {
                    assert(model::contests_configuration(records, b));
                }
            }
        }
    }
}

/// Nothing is wrong with a record by itself.
pub open spec fn ok_alone(entry: Entry) -> bool {
    match entry {
        Entry::Observation(obs) => model::observation_fault(obs) is None,
        Entry::Configuration(limit) => model::configuration_fault(limit) is None,
    }
}

proof fn lemma_fault_stays(records: Seq<Entry>, n: nat, m: nat)
    requires
        n <= m,
        model::first_record_fault(records, n) is Some,
    ensures
        model::first_record_fault(records, m) == model::first_record_fault(records, n),
    decreases m,
{
    if n < m {
        lemma_fault_stays(records, n, (m - 1) as nat);
    }
}

/// The first record of a kind with each number, among the first `n`.
spec fn first_seen(
    seen: Seq<Option<usize>>,
    ranks: Seq<usize>,
    records: Seq<Entry>,
    observations: bool,
    n: int,
) -> bool {
    &&& seen.len() == ranks.len()
    &&& forall|r: int|
        0 <= r < seen.len() ==> match #[trigger] seen[r] {
            Some(p) => p < n && ranks[p as int] == r && (records[p as int] is Observation)
                == observations,
            None => forall|q: int|
                0 <= q < n && (#[trigger] records[q] is Observation) == observations
                    ==> ranks[q] != r,
        }
}

fn nothing_seen(count: usize) -> (seen: Vec<Option<usize>>)
    ensures
        seen@.len() == count,
        forall|r: int| 0 <= r < count ==> (#[trigger] seen@[r]) is None,
{
    let mut seen: Vec<Option<usize>> = Vec::new();
    let mut i: usize = 0;
    while i < count
        invariant
            i <= count,
            seen@.len() == i,
            forall|r: int| 0 <= r < i ==> (#[trigger] seen@[r]) is None,
        decreases count - i,
    {
        seen.push(None);
        i = i + 1;
    }
    seen
}

/// Whether record `i` differs from the first one of its kind and identity.
fn is_contested(records: &[Record], i: usize, first: Option<usize>, Ghost(ranks): Ghost<
    Seq<usize>,
>, Ghost(ids): Ghost<Seq<&str>>) -> (contested: bool)
    requires
        i < records@.len(),
        text::ranks_of(ranks, ids),
        ids.len() == records@.len(),
        forall|j: int|
            0 <= j < ids.len() ==> (#[trigger] ids[j])@ == id_of(model::entries(records@)[j]),
        settled(model::entries(records@), i as int),
        match first {
            Some(p) => p < i && ranks[p as int] == ranks[i as int] && same_kind(
                model::entries(records@)[p as int],
                model::entries(records@)[i as int],
            ),
            None => forall|q: int|
                0 <= q < i && same_kind(
                    #[trigger] model::entries(records@)[q],
                    model::entries(records@)[i as int],
                ) ==> ranks[q] != ranks[i as int],
        },
    ensures
        contested == (if model::entries(records@)[i as int] is Observation {
            model::contests_observation(model::entries(records@), i as int)
        } else {
            model::contests_configuration(model::entries(records@), i as int)
        }),
{
    let ghost shown = model::entries(records@);
    assert(ids[i as int]@ == id_of(shown[i as int]));
    match first {
        Some(p) => {
            let same = same_record(&records[p], &records[i]);
            proof {
                assert(shown[p as int] == records@[p as int]@);
                assert(ids[p as int]@ == id_of(shown[p as int]));
                assert(ids[p as int]@ == ids[i as int]@);
                if same {
                    assert forall|j: int|
                        0 <= j < i && same_kind(#[trigger] shown[j], shown[i as int]) && id_of(
                            shown[j],
                        ) == id_of(shown[i as int]) implies shown[j] == shown[i as int] by {
                        if j < p {
                            assert(shown[j] == shown[p as int]);
                        } else if p < j {
                            assert(shown[p as int] == shown[j]);
                        }
                    }
                }
            }
            !same
        },
        None => {
            proof {
                assert forall|j: int|
                    0 <= j < i && same_kind(#[trigger] shown[j], shown[i as int]) implies id_of(
                    shown[j],
                ) != id_of(shown[i as int]) by {
                    assert(ids[j]@ == id_of(shown[j]));
                }
            }
            false
        },
    }
}

/// The first thing wrong with the records, taken one by one.
fn check_records(records: &[Record]) -> (fault: Option<String>)
    ensures
        match fault {
            Some(fault) => model::first_record_fault(model::entries(records@), records@.len())
                == Some(fault@),
            None => model::first_record_fault(model::entries(records@), records@.len()) is None,
        },
{
    let ghost shown = model::entries(records@);
    let mut ids: Vec<&str> = Vec::new();
    let mut i: usize = 0;
    while i < records.len()
        invariant
            i <= records@.len(),
            shown == model::entries(records@),
            ids@.len() == i,
            forall|j: int| 0 <= j < i ==> (#[trigger] ids@[j])@ == id_of(shown[j]),
        decreases records@.len() - i,
    {
        assert(shown[i as int] == records@[i as int]@);
        ids.push(record_id(&records[i]));
        i = i + 1;
    }
    let ranks = rank_texts(&ids);
    let mut observed = nothing_seen(records.len());
    let mut configured = nothing_seen(records.len());
    let mut i: usize = 0;
    while i < records.len()
        invariant
            i <= records@.len(),
            shown == model::entries(records@),
            ids@.len() == records@.len(),
            forall|j: int| 0 <= j < ids@.len() ==> (#[trigger] ids@[j])@ == id_of(shown[j]),
            text::ranks_of(ranks@, ids@),
            first_seen(observed@, ranks@, shown, true, i as int),
            first_seen(configured@, ranks@, shown, false, i as int),
            model::first_record_fault(shown, i as nat) is None,
        decreases records@.len() - i,
    {
        let ghost next = (i + 1) as nat;
        proof {
            lemma_settled(shown, i as nat);
            assert(shown[i as int] == records@[i as int]@);
        }
        let rank: usize = ranks[i];
        let first = match &records[i] {
            Record::Observation(_) => observed[rank],
            Record::Configuration(_) => configured[rank],
        };
        let contested = is_contested(records, i, first, Ghost(ranks@), Ghost(ids@));
        let (fault, conflict) = match &records[i] {
            Record::Observation(observation) => (
                validate_observation(observation),
                joined(
                    "conflicting duplicate observation id ",
                    observation.observation_id.as_str(),
                ),
            ),
            Record::Configuration(config) => (
                validate_configuration(config),
                joined("conflicting duplicate configuration id ", config.configuration_id.as_str()),
            ),
        };
        if let Some(fault) = fault {
            proof {
                lemma_fault_stays(shown, next, records@.len());
            }
            return Some(fault);
        }
        if contested {
            proof {
                lemma_fault_stays(shown, next, records@.len());
            }
            return Some(conflict);
        }
        if first.is_none() {
            match &records[i] {
                Record::Observation(_) => {
                    observed.set(rank, Some(i));
                },
                Record::Configuration(_) => {
                    configured.set(rank, Some(i));
                },
            }
        }
        i = i + 1;
    }
    None
}

/// The observations of an archive without its repetitions, in identity order.
fn list_observations(records: &[Record]) -> (all: Vec<&Observation>)
    requires
        settled(model::entries(records@), records@.len() as int),
    ensures
        obs_views(all@) == model::observations(model::entries(records@)),
        listed(obs_views(all@)),
        forall|k: int|
            0 <= k < all@.len() ==> model::entries(records@).contains(
                Entry::Observation((#[trigger] all@[k])@),
            ),
{
    let ghost shown = model::entries(records@);
    let mut found: Vec<&Observation> = Vec::new();
    let mut ids: Vec<&str> = Vec::new();
    let mut i: usize = 0;
    while i < records.len()
        invariant
            i <= records@.len(),
            shown == model::entries(records@),
            ids@.len() == found@.len(),
            forall|j: int|
                0 <= j < ids@.len() ==> (#[trigger] ids@[j])@ == found@[j]@.id && shown.contains(
                    Entry::Observation(found@[j]@),
                ),
            forall|p: int|
                0 <= p < i && (#[trigger] shown[p]) is Observation ==> exists|j: int|
                    0 <= j < found@.len() && Entry::Observation((#[trigger] found@[j])@)
                        == shown[p],
        decreases records@.len() - i,
    {
        assert(shown[i as int] == records@[i as int]@);
        let ghost before = found@;
        let ghost earlier = ids@;
        if let Record::Observation(observation) = &records[i] {
            found.push(observation);
            ids.push(observation.observation_id.as_str());
            assert(Entry::Observation(found@[before.len() as int]@) == shown[i as int]);
        }
        proof {
            assert(shown.contains(shown[i as int]));
            assert forall|j: int| 0 <= j < ids@.len() implies (#[trigger] ids@[j])@ == found@[j]@.id
                && shown.contains(Entry::Observation(found@[j]@)) by {
                if j < before.len() {
                    assert(earlier[j]@ == before[j]@.id);
                    assert(found@[j] == before[j]);
                    assert(ids@[j] == earlier[j]);
                } else {
                    assert(Entry::Observation(found@[j]@) == shown[i as int]);
                }
            }
            assert forall|p: int| 0 <= p < i + 1 && (#[trigger] shown[p]) is Observation implies exists|
                j: int,
            | 0 <= j < found@.len() && Entry::Observation((#[trigger] found@[j])@) == shown[p] by {
                if p < i {
                    let j = choose|j: int|
                        0 <= j < before.len() && Entry::Observation((#[trigger] before[j])@)
                            == shown[p];
                    assert(found@[j] == before[j]);
                }
            }
        }
        i = i + 1;
    }
    let places = first_places(&ids);
    let mut all: Vec<&Observation> = Vec::new();
    let mut k: usize = 0;
    while k < places.len()
        invariant
            k <= places@.len(),
            text::firsts(places@, ids@),
            ids@.len() == found@.len(),
            all@.len() == k,
            forall|j: int| 0 <= j < k ==> (#[trigger] all@[j]) == found@[places@[j] as int],
        decreases places@.len() - k,
    {
        all.push(found[places[k]]);
        k = k + 1;
    }
    proof {
        lemma_observations_listed(shown, found@, ids@, places@, all@);
    }
    all
}

proof fn lemma_observations_listed(
    shown: Seq<Entry>,
    found: Seq<&Observation>,
    ids: Seq<&str>,
    places: Seq<usize>,
    all: Seq<&Observation>,
)
    requires
        settled(shown, shown.len() as int),
        text::firsts(places, ids),
        ids.len() == found.len(),
        forall|j: int|
            0 <= j < ids.len() ==> (#[trigger] ids[j])@ == found[j]@.id && shown.contains(
                Entry::Observation(found[j]@),
            ),
        forall|p: int|
            0 <= p < shown.len() && (#[trigger] shown[p]) is Observation ==> exists|j: int|
                0 <= j < found.len() && Entry::Observation((#[trigger] found[j])@) == shown[p],
        all.len() == places.len(),
        forall|j: int| 0 <= j < all.len() ==> (#[trigger] all[j]) == found[places[j] as int],
    ensures
        obs_views(all) == model::observations(shown),
        listed(obs_views(all)),
        forall|k: int|
            0 <= k < all.len() ==> shown.contains(Entry::Observation((#[trigger] all[k])@)),
{
    text::lemma_firsts(places, ids);
    let set = model::observation_ids(shown);
    assert forall|t: Seq<char>| #[trigger] text::text_set(ids).contains(t) == set.contains(t) by {
        if text::text_set(ids).contains(t) {
            let j = choose|j: int| 0 <= j < ids.len() && (#[trigger] ids[j])@ == t;
            let p = choose|p: int| 0 <= p < shown.len() && shown[p] == Entry::Observation(found[j]@);
            assert(model::observation_id(shown[p]) == Some(t));
        }
        if set.contains(t) {
            let p = choose|p: int|
                0 <= p < shown.len() && model::observation_id(#[trigger] shown[p]) == Some(t);
            let j = choose|j: int|
                0 <= j < found.len() && Entry::Observation((#[trigger] found[j])@) == shown[p];
            assert(ids[j]@ == t);
        }
    }
    assert(text::text_set(ids) =~= set);
    let order = text::in_order(set);
    let wanted = model::observations(shown);
    assert forall|k: int| 0 <= k < all.len() implies obs_views(all)[k] == wanted[k] by {
        let place = places[k];
        assert(all[k] == found[place as int]);
        assert(order[k] == ids[place as int]@);
        assert(shown.contains(Entry::Observation(found[place as int]@)));
        let p = choose|p: int|
            0 <= p < shown.len() && shown[p] == Entry::Observation(found[place as int]@);
        assert(model::observation_id(shown[p]) == Some(order[k]));
        let chosen = choose|i: int|
            0 <= i < shown.len() && model::observation_id(#[trigger] shown[i]) == Some(order[k]);
        assert(model::observation_id(shown[chosen]) == Some(order[k]));
        if chosen < p {
            assert(same_kind(shown[chosen], shown[p]));
        } else if p < chosen {
            assert(same_kind(shown[p], shown[chosen]));
        }
        assert(shown[chosen] == shown[p]);
    }
    assert(obs_views(all) =~= wanted);
    assert forall|a: int, b: int| 0 <= a < b < all.len() implies text::text_lt(
        (#[trigger] obs_views(all)[a]).id,
        (#[trigger] obs_views(all)[b]).id,
    ) by {
        assert(text::text_lt(ids[places[a] as int]@, ids[places[b] as int]@));
    }
    assert forall|k: int| 0 <= k < all.len() implies shown.contains(
        Entry::Observation((#[trigger] all[k])@),
    ) by {
        assert(places[k] < ids.len());
        assert(ids[places[k] as int]@ == found[places[k] as int]@.id);
    }
}

/// The configurations that were found, each with its identity.
spec fn named_configurations(ids: Seq<&str>, found: Seq<&Config>, shown: Seq<Entry>) -> bool {
    &&& ids.len() == found.len()
    &&& forall|j: int|
        0 <= j < ids.len() ==> (#[trigger] ids[j])@ == found[j]@.id && shown.contains(
            Entry::Configuration(found[j]@),
        )
}

/// Every configuration among the first `n` entries was found.
spec fn all_found(found: Seq<&Config>, shown: Seq<Entry>, n: int) -> bool {
    forall|p: int|
        0 <= p < n && (#[trigger] shown[p]) is Configuration ==> exists|j: int|
            0 <= j < found.len() && Entry::Configuration((#[trigger] found[j])@) == shown[p]
}

/// One more configuration is found.
proof fn lemma_configuration_found(
    ids: Seq<&str>,
    found: Seq<&Config>,
    shown: Seq<Entry>,
    n: int,
    id: &str,
    config: &Config,
)
    requires
        named_configurations(ids, found, shown),
        all_found(found, shown, n),
        0 <= n < shown.len(),
        shown[n] == Entry::Configuration(config@),
        id@ == config@.id,
    ensures
        named_configurations(ids.push(id), found.push(config), shown),
        all_found(found.push(config), shown, n + 1),
{
    let (names, all) = (ids.push(id), found.push(config));
    assert(shown.contains(shown[n]));
    assert forall|j: int| 0 <= j < names.len() implies (#[trigger] names[j])@ == all[j]@.id
        && shown.contains(Entry::Configuration(all[j]@)) by {
        if j < ids.len() {
            assert(ids[j]@ == found[j]@.id);
        }
    }
    assert forall|p: int| 0 <= p < n + 1 && (#[trigger] shown[p]) is Configuration implies exists|
        j: int,
    | 0 <= j < all.len() && Entry::Configuration((#[trigger] all[j])@) == shown[p] by {
        if p < n {
            let j = choose|j: int|
                0 <= j < found.len() && Entry::Configuration((#[trigger] found[j])@) == shown[p];
            assert(all[j] == found[j]);
        } else {
            assert(all[found.len() as int] == config);
        }
    }
}

/// The configurations of an archive without its repetitions, in identity order.
#[verifier::spinoff_prover]
fn list_configurations(records: &[Record]) -> (all: Vec<&Config>)
    requires
        settled(model::entries(records@), records@.len() as int),
    ensures
        limit_views(all@) == model::configurations(model::entries(records@)),
{
    let ghost shown = model::entries(records@);
    let mut found: Vec<&Config> = Vec::new();
    let mut ids: Vec<&str> = Vec::new();
    let mut i: usize = 0;
    while i < records.len()
        invariant
            i <= records@.len(),
            shown == model::entries(records@),
            named_configurations(ids@, found@, shown),
            all_found(found@, shown, i as int),
        decreases records@.len() - i,
    {
        assert(shown[i as int] == records@[i as int]@);
        if let Record::Configuration(config) = &records[i] {
            let id = config.configuration_id.as_str();
            proof {
                lemma_configuration_found(ids@, found@, shown, i as int, id, config);
            }
            found.push(config);
            ids.push(id);
        }
        i = i + 1;
    }
    let places = first_places(&ids);
    let mut all: Vec<&Config> = Vec::new();
    let mut k: usize = 0;
    while k < places.len()
        invariant
            k <= places@.len(),
            text::firsts(places@, ids@),
            ids@.len() == found@.len(),
            all@.len() == k,
            forall|j: int| 0 <= j < k ==> (#[trigger] all@[j]) == found@[places@[j] as int],
        decreases places@.len() - k,
    {
        all.push(found[places[k]]);
        k = k + 1;
    }
    proof {
        lemma_configurations_listed(shown, found@, ids@, places@, all@);
    }
    all
}

proof fn lemma_configurations_listed(
    shown: Seq<Entry>,
    found: Seq<&Config>,
    ids: Seq<&str>,
    places: Seq<usize>,
    all: Seq<&Config>,
)
    requires
        settled(shown, shown.len() as int),
        text::firsts(places, ids),
        ids.len() == found.len(),
        forall|j: int|
            0 <= j < ids.len() ==> (#[trigger] ids[j])@ == found[j]@.id && shown.contains(
                Entry::Configuration(found[j]@),
            ),
        forall|p: int|
            0 <= p < shown.len() && (#[trigger] shown[p]) is Configuration ==> exists|j: int|
                0 <= j < found.len() && Entry::Configuration((#[trigger] found[j])@) == shown[p],
        all.len() == places.len(),
        forall|j: int| 0 <= j < all.len() ==> (#[trigger] all[j]) == found[places[j] as int],
    ensures
        limit_views(all) == model::configurations(shown),
{
    text::lemma_firsts(places, ids);
    let set = model::configuration_ids(shown);
    assert forall|t: Seq<char>| #[trigger] text::text_set(ids).contains(t) == set.contains(t) by {
        if text::text_set(ids).contains(t) {
            let j = choose|j: int| 0 <= j < ids.len() && (#[trigger] ids[j])@ == t;
            let p = choose|p: int|
                0 <= p < shown.len() && shown[p] == Entry::Configuration(found[j]@);
            assert(model::configuration_id(shown[p]) == Some(t));
        }
        if set.contains(t) {
            let p = choose|p: int|
                0 <= p < shown.len() && model::configuration_id(#[trigger] shown[p]) == Some(t);
            let j = choose|j: int|
                0 <= j < found.len() && Entry::Configuration((#[trigger] found[j])@) == shown[p];
            assert(ids[j]@ == t);
        }
    }
    assert(text::text_set(ids) =~= set);
    let order = text::in_order(set);
    let wanted = model::configurations(shown);
    assert forall|k: int| 0 <= k < all.len() implies limit_views(all)[k] == wanted[k] by {
        let place = places[k];
        assert(all[k] == found[place as int]);
        assert(order[k] == ids[place as int]@);
        assert(shown.contains(Entry::Configuration(found[place as int]@)));
        let p = choose|p: int|
            0 <= p < shown.len() && shown[p] == Entry::Configuration(found[place as int]@);
        assert(model::configuration_id(shown[p]) == Some(order[k]));
        let chosen = choose|i: int|
            0 <= i < shown.len() && model::configuration_id(#[trigger] shown[i]) == Some(order[k]);
        assert(model::configuration_id(shown[chosen]) == Some(order[k]));
        if chosen < p {
            assert(same_kind(shown[chosen], shown[p]));
        } else if p < chosen {
            assert(same_kind(shown[p], shown[chosen]));
        }
        assert(shown[chosen] == shown[p]);
    }
    assert(limit_views(all) =~= wanted);
}

/// Which observation each one replaces, and which one replaces it.
struct Corrections {
    targets: Vec<Option<usize>>,
    replacers: Vec<Option<usize>>,
}

/// None of the first `n` observations replaces observation `j`.
spec fn unreplaced(all: Seq<Obs>, j: int, n: int) -> bool {
    forall|k: int| 0 <= k < n ==> !#[trigger] model::replaces(all, k, j)
}

/// The correction links among the first `n` observations.
spec fn linked(
    targets: Seq<Option<usize>>,
    replacers: Seq<Option<usize>>,
    all: Seq<Obs>,
    n: int,
) -> bool {
    &&& targets.len() == n
    &&& replacers.len() == all.len()
    &&& forall|k: int|
        0 <= k < n ==> match #[trigger] targets[k] {
            Some(j) => model::replaces(all, k, j as int),
            None => all[k].replaces is None,
        }
    &&& forall|j: int|
        0 <= j < all.len() ==> match #[trigger] replacers[j] {
            Some(k) => k < n && model::replaces(all, k as int, j),
            None => unreplaced(all, j, n),
        }
    &&& forall|a: int, b: int, j: int|
        0 <= a < n && 0 <= b < n && #[trigger] model::replaces(all, a, j)
            && #[trigger] model::replaces(all, b, j) ==> a == b
}

/// In a list, an observation replaces one other at most.
proof fn lemma_one_target(all: Seq<Obs>, k: int, i: int, j: int)
    requires
        listed(all),
        model::replaces(all, k, i),
        model::replaces(all, k, j),
    ensures
        i == j,
{
    text::lemma_text_total(all[i].id, all[j].id);
    if i < j {
        assert(text::text_lt(all[i].id, all[j].id));
    } else if j < i {
        assert(text::text_lt(all[j].id, all[i].id));
    }
}

proof fn lemma_correction_stays(all: Seq<Obs>, n: nat, m: nat)
    requires
        n <= m,
        model::first_correction_fault(all, n) is Some,
    ensures
        model::first_correction_fault(all, m) == model::first_correction_fault(all, n),
    decreases m,
{
    if n < m {
        lemma_correction_stays(all, n, (m - 1) as nat);
    }
}

/// Resolves one correction.
fn resolve_correction(
    observations: &Vec<&Observation>,
    ids: &Vec<&str>,
    replacers: &Vec<Option<usize>>,
    k: usize,
    target: &str,
    Ghost(all): Ghost<Seq<Obs>>,
    Ghost(targets): Ghost<Seq<Option<usize>>>,
) -> (result: Result<usize, String>)
    requires
        all == obs_views(observations@),
        listed(all),
        k < all.len(),
        all[k as int].replaces == Some(target@),
        ids@.len() == all.len(),
        forall|j: int| 0 <= j < ids@.len() ==> (#[trigger] ids@[j])@ == all[j].id,
        linked(targets, replacers@, all, k as int),
    ensures
        match result {
            Ok(j) => model::correction_fault(all, k as int) is None && model::replaces(
                all,
                k as int,
                j as int,
            ) && replacers@[j as int] is None,
            Err(fault) => model::correction_fault(all, k as int) == Some(fault@),
        },
{
    assert forall|a: int, b: int| 0 <= a < b < ids@.len() implies text::text_lt(
        (#[trigger] ids@[a])@,
        (#[trigger] ids@[b])@,
    ) by {
        assert(text::text_lt(all[a].id, all[b].id));
    }
    let j = match find_text(ids, target) {
        Some(j) => j,
        None => {
            assert forall|j: int| 0 <= j < all.len() implies (#[trigger] all[j]).id != target@ by {
                assert(ids@[j]@ == all[j].id);
            }
            return Err(joined("unknown correction target ", target));
        },
    };
    assert(all[j as int].id == target@);
    assert(model::replaces(all, k as int, j as int));
    assert(all[j as int] == observations@[j as int]@);
    assert(all[k as int] == observations@[k as int]@);
    if !same_text(observations[j].freezer_id.as_str(), observations[k].freezer_id.as_str()) {
        return Err(
            joined3(
                "correction ",
                observations[k].observation_id.as_str(),
                " crosses freezer boundary",
            ),
        );
    }
    proof {
        assert forall|i: int| 0 <= i < all.len() && (#[trigger] all[i]).id == target@ implies i == j by {
            assert(model::replaces(all, k as int, i));
            lemma_one_target(all, k as int, i, j as int);
        }
    }
    if let Some(other) = replacers[j] {
        assert(model::replaces(all, other as int, j as int));
        assert(all[other as int].replaces == Some(target@));
        return Err(joined("multiple corrections replace observation ", target));
    }
    proof {
        assert forall|m: int| 0 <= m < k implies (#[trigger] all[m]).replaces != Some(target@) by {
            if all[m].replaces == Some(target@) {
                assert(model::replaces(all, m, j as int));
            }
        }
    }
    Ok(j)
}

/// Resolves every correction.
fn resolve_corrections(observations: &Vec<&Observation>) -> (result: Result<Corrections, String>)
    requires
        listed(obs_views(observations@)),
    ensures
        ({
            let all = obs_views(observations@);
            match result {
                Ok(found) => model::first_correction_fault(all, all.len()) is None && linked(
                    found.targets@,
                    found.replacers@,
                    all,
                    all.len() as int,
                ),
                Err(fault) => model::first_correction_fault(all, all.len()) == Some(fault@),
            }
        }),
{
    let ghost all = obs_views(observations@);
    let mut ids: Vec<&str> = Vec::new();
    let mut i: usize = 0;
    while i < observations.len()
        invariant
            i <= observations@.len(),
            all == obs_views(observations@),
            ids@.len() == i,
            forall|j: int| 0 <= j < i ==> (#[trigger] ids@[j])@ == all[j].id,
        decreases observations@.len() - i,
    {
        assert(all[i as int] == observations@[i as int]@);
        ids.push(observations[i].observation_id.as_str());
        i = i + 1;
    }
    let mut targets: Vec<Option<usize>> = Vec::new();
    let mut replacers = nothing_seen(observations.len());
    let mut k: usize = 0;
    while k < observations.len()
        invariant
            k <= observations@.len() == all.len(),
            all == obs_views(observations@),
            listed(all),
            ids@.len() == all.len(),
            forall|j: int| 0 <= j < ids@.len() ==> (#[trigger] ids@[j])@ == all[j].id,
            linked(targets@, replacers@, all, k as int),
            model::first_correction_fault(all, k as nat) is None,
        decreases observations@.len() - k,
    {
        assert(all[k as int] == observations@[k as int]@);
        let ghost next = (k + 1) as nat;
        let ghost (before_targets, before_replacers) = (targets@, replacers@);
        match &observations[k].replaces_observation_id {
            None => {
                targets.push(None);
                proof {
                    lemma_link_none(before_targets, before_replacers, all, k as int);
                }
            },
            Some(target) => {
                match resolve_correction(
                    observations,
                    &ids,
                    &replacers,
                    k,
                    target.as_str(),
                    Ghost(all),
                    Ghost(targets@),
                ) {
                    Ok(j) => {
                        targets.push(Some(j));
                        replacers.set(j, Some(k));
                        proof {
                            lemma_link_some(
                                before_targets,
                                before_replacers,
                                all,
                                k as int,
                                j,
                                k,
                            );
                        }
                    },
                    Err(fault) => {
                        proof {
                            lemma_correction_stays(all, next, all.len());
                        }
                        return Err(fault);
                    },
                }
            },
        }
        k = k + 1;
    }
    Ok(Corrections { targets, replacers })
}

proof fn lemma_link_none(
    targets: Seq<Option<usize>>,
    replacers: Seq<Option<usize>>,
    all: Seq<Obs>,
    k: int,
)
    requires
        linked(targets, replacers, all, k),
        0 <= k < all.len(),
        all[k].replaces is None,
    ensures
        linked(targets.push(None), replacers, all, k + 1),
{
    let more = targets.push(None);
    assert forall|i: int| 0 <= i < k + 1 implies match #[trigger] more[i] {
        Some(j) => model::replaces(all, i, j as int),
        None => all[i].replaces is None,
    } by {
        if i < k {
            assert(more[i] == targets[i]);
        }
    }
}

proof fn lemma_link_some(
    targets: Seq<Option<usize>>,
    replacers: Seq<Option<usize>>,
    all: Seq<Obs>,
    k: int,
    j: usize,
    own: usize,
)
    requires
        linked(targets, replacers, all, k),
        listed(all),
        0 <= k < all.len(),
        own == k,
        model::replaces(all, k, j as int),
        replacers[j as int] is None,
    ensures
        linked(targets.push(Some(j)), replacers.update(j as int, Some(own)), all, k + 1),
{
    let more = targets.push(Some(j));
    let after = replacers.update(j as int, Some(own));
    assert forall|i: int| 0 <= i < k + 1 implies match #[trigger] more[i] {
        Some(j) => model::replaces(all, i, j as int),
        None => all[i].replaces is None,
    } by {
        if i < k {
            assert(more[i] == targets[i]);
        }
    }
    assert forall|x: int| 0 <= x < all.len() implies match #[trigger] after[x] {
        Some(y) => y < k + 1 && model::replaces(all, y as int, x),
        None => unreplaced(all, x, k + 1),
    } by {
        if x != j {
            assert(after[x] == replacers[x]);
            assert forall|m: int| 0 <= m < k + 1 && after[x] is None implies !#[trigger] model::replaces(
                all,
                m,
                x,
            ) by {
                if m == k && model::replaces(all, k, x) {
                    lemma_one_target(all, k, x, j as int);
                }
            }
        }
    }
    assert forall|a: int, b: int, x: int|
        0 <= a < k + 1 && 0 <= b < k + 1 && #[trigger] model::replaces(all, a, x)
            && #[trigger] model::replaces(all, b, x) implies a == b by {
        if a == k && b != k {
            lemma_one_target(all, k, x, j as int);
            assert(!model::replaces(all, b, j as int));
        } else if b == k && a != k {
            lemma_one_target(all, k, x, j as int);
            assert(!model::replaces(all, a, j as int));
        }
    }
}

/// Where a chain of corrections ends, the one that replaces its head ends too.
proof fn lemma_grounded(all: Seq<Obs>, x: int, y: int)
    requires
        listed(all),
        model::replaces(all, y, x),
        !model::endless(all, x),
    ensures
        !model::endless(all, y),
{
    let n = choose|n: nat| !#[trigger] model::reaches(all, x, n);
    if model::reaches(all, y, n + 1) {
        let j = choose|j: int| #[trigger]
            model::replaces(all, y, j) && model::reaches(all, j, (n + 1 - 1) as nat);
        lemma_one_target(all, y, x, j);
    }
}

/// Observations whose chain is not known to end, each with one before it of the
/// same kind, have no end.
proof fn lemma_ungrounded(
    all: Seq<Obs>,
    targets: Seq<Option<usize>>,
    marked: Seq<bool>,
    x: int,
    n: nat,
)
    requires
        0 <= x < all.len(),
        marked.len() == all.len(),
        targets.len() == all.len(),
        !marked[x],
        forall|k: int|
            0 <= k < all.len() && !marked[k] ==> match #[trigger] targets[k] {
                Some(j) => model::replaces(all, k, j as int) && !marked[j as int],
                None => false,
            },
    ensures
        model::reaches(all, x, n),
    decreases n,
{
    if n > 0 {
        assert(targets[x] is Some);
        let j = targets[x].unwrap() as int;
        assert(model::replaces(all, x, j));
        lemma_ungrounded(all, targets, marked, j, (n - 1) as nat);
    }
}

/// What the marks say: a marked chain ends, and marks go on to what replaces a
/// marked observation, but for one place.
spec fn marks_hold(
    all: Seq<Obs>,
    replacers: Seq<Option<usize>>,
    marked: Seq<bool>,
    but: int,
) -> bool {
    &&& marked.len() == all.len()
    &&& forall|x: int| 0 <= x < all.len() && #[trigger] marked[x] ==> !model::endless(all, x)
    &&& forall|x: int|
        0 <= x < all.len() && x != but && #[trigger] marked[x] ==> match replacers[x] {
            Some(y) => marked[y as int],
            None => true,
        }
}

/// Marks the observations whose chain of corrections ends.
fn mark_grounded(corrections: &Corrections, Ghost(all): Ghost<Seq<Obs>>) -> (marked: Vec<bool>)
    requires
        listed(all),
        linked(corrections.targets@, corrections.replacers@, all, all.len() as int),
    ensures
        marked@.len() == all.len(),
        forall|k: int| 0 <= k < all.len() ==> (#[trigger] marked@[k]) == !model::endless(all, k),
{
    let targets = &corrections.targets;
    let replacers = &corrections.replacers;
    let count: usize = targets.len();
    let mut marked: Vec<bool> = Vec::new();
    let mut i: usize = 0;
    while i < count
        invariant
            i <= count,
            marked@.len() == i,
            forall|x: int| 0 <= x < i ==> !(#[trigger] marked@[x]),
        decreases count - i,
    {
        marked.push(false);
        i = i + 1;
    }
    let mut k: usize = 0;
    while k < count
        invariant
            k <= count == all.len(),
            targets == &corrections.targets,
            replacers == &corrections.replacers,
            listed(all),
            linked(targets@, replacers@, all, all.len() as int),
            marks_hold(all, replacers@, marked@, -1),
            forall|x: int| 0 <= x < k && #[trigger] targets@[x] is None ==> marked@[x],
        decreases count - k,
    {
        if targets[k].is_none() && !marked[k] {
            mark_chain(&mut marked, replacers, k, Ghost(all), Ghost(targets@));
        }
        k = k + 1;
    }
    proof {
        assert forall|x: int| 0 <= x < all.len() && !marked@[x] implies match #[trigger] targets@[x] {
            Some(j) => model::replaces(all, x, j as int) && !marked@[j as int],
            None => false,
        } by {
            if let Some(j) = targets@[x] {
                assert(model::replaces(all, x, j as int));
                if marked@[j as int] {
                    assert(replacers@[j as int] is Some);
                    let y = replacers@[j as int].unwrap();
                    assert(model::replaces(all, y as int, j as int));
                    assert(y == x);
                }
            }
        }
        assert forall|x: int| 0 <= x < all.len() implies (#[trigger] marked@[x]) == !model::endless(
            all,
            x,
        ) by {
            if !marked@[x] {
                assert forall|n: nat| #[trigger] model::reaches(all, x, n) by {
                    lemma_ungrounded(all, targets@, marked@, x, n);
                }
            }
        }
    }
    marked
}

/// Marks an observation that replaces nothing, and all that come to replace it.
fn mark_chain(
    marked: &mut Vec<bool>,
    replacers: &Vec<Option<usize>>,
    start: usize,
    Ghost(all): Ghost<Seq<Obs>>,
    Ghost(targets): Ghost<Seq<Option<usize>>>,
)
    requires
        listed(all),
        linked(targets, replacers@, all, all.len() as int),
        start < all.len(),
        targets[start as int] is None,
        !old(marked)@[start as int],
        marks_hold(all, replacers@, old(marked)@, -1),
    ensures
        marks_hold(all, replacers@, final(marked)@, -1),
        final(marked)@[start as int],
        forall|x: int|
            0 <= x < all.len() && #[trigger] old(marked)@[x] ==> final(marked)@[x],
{
    proof {
        assert(all[start as int].replaces is None);
        if model::endless(all, start as int) {
            assert(model::reaches(all, start as int, 1));
        }
    }
    let ghost before = marked@;
    let mut cursor: usize = start;
    let mut going = true;
    marked.set(cursor, true);
    let ghost mut left = count_unmarked(marked@);
    while going
        invariant
            cursor < all.len(),
            start < all.len(),
            listed(all),
            linked(targets, replacers@, all, all.len() as int),
            marked@.len() == all.len(),
            marked@[cursor as int],
            marked@[start as int],
            forall|x: int| 0 <= x < all.len() && #[trigger] before[x] ==> marked@[x],
            going ==> marks_hold(all, replacers@, marked@, cursor as int),
            !going ==> marks_hold(all, replacers@, marked@, -1),
            left == count_unmarked(marked@),
        decreases going as int + left,
    {
        assert(!model::endless(all, cursor as int));
        match replacers[cursor] {
            Some(next) => {
                assert(model::replaces(all, next as int, cursor as int));
                if marked[next] {
                    going = false;
                } else {
                    let ghost earlier = marked@;
                    proof {
                        lemma_grounded(all, cursor as int, next as int);
                        lemma_unmarked_update(earlier, next as int);
                        left = count_unmarked(earlier.update(next as int, true));
                    }
                    marked.set(next, true);
                    cursor = next;
                }
            },
            None => {
                going = false;
            },
        }
    }
}

spec fn count_unmarked(marked: Seq<bool>) -> nat
    decreases marked.len(),
{
    if marked.len() == 0 {
        0
    } else {
        count_unmarked(marked.drop_last()) + if marked.last() {
            0nat
        } else {
            1nat
        }
    }
}

proof fn lemma_unmarked_update(marked: Seq<bool>, i: int)
    requires
        0 <= i < marked.len(),
        !marked[i],
    ensures
        count_unmarked(marked.update(i, true)) < count_unmarked(marked),
    decreases marked.len(),
{
    let after = marked.update(i, true);
    if i == marked.len() - 1 {
        assert(after.drop_last() =~= marked.drop_last());
    } else {
        lemma_unmarked_update(marked.drop_last(), i);
        assert(after.drop_last() =~= marked.drop_last().update(i, true));
    }
}

proof fn lemma_cycle_stays(all: Seq<Obs>, n: nat, m: nat)
    requires
        n <= m,
        model::first_cycle(all, n) is Some,
    ensures
        model::first_cycle(all, m) == model::first_cycle(all, n),
    decreases m,
{
    if n < m {
        lemma_cycle_stays(all, n, (m - 1) as nat);
    }
}

/// The first observation whose chain of corrections never ends.
fn find_cycle(observations: &Vec<&Observation>, corrections: &Corrections) -> (fault: Option<String>)
    requires
        listed(obs_views(observations@)),
        linked(
            corrections.targets@,
            corrections.replacers@,
            obs_views(observations@),
            observations@.len() as int,
        ),
    ensures
        ({
            let all = obs_views(observations@);
            match fault {
                Some(fault) => model::first_cycle(all, all.len()) == Some(fault@),
                None => model::first_cycle(all, all.len()) is None,
            }
        }),
{
    let ghost all = obs_views(observations@);
    let marked = mark_grounded(corrections, Ghost(all));
    let mut k: usize = 0;
    while k < observations.len()
        invariant
            k <= observations@.len() == all.len() == marked@.len(),
            all == obs_views(observations@),
            forall|x: int| 0 <= x < all.len() ==> (#[trigger] marked@[x]) == !model::endless(all, x),
            model::first_cycle(all, k as nat) is None,
        decreases observations@.len() - k,
    {
        assert(all[k as int] == observations@[k as int]@);
        if !marked[k] {
            proof {
                lemma_cycle_stays(all, (k + 1) as nat, all.len());
            }
            return Some(
                joined(
                    "correction cycle includes observation ",
                    observations[k].observation_id.as_str(),
                ),
            );
        }
        k = k + 1;
    }
    None
}

proof fn lemma_ambiguity_stays(limits: Seq<Limit>, n: nat, m: nat)
    requires
        n <= m,
        model::first_ambiguity(limits, n) is Some,
    ensures
        model::first_ambiguity(limits, m) == model::first_ambiguity(limits, n),
    decreases m,
{
    if n < m {
        lemma_ambiguity_stays(limits, n, (m - 1) as nat);
    }
}

/// The first limit that takes effect together with an earlier one.
fn find_ambiguity(configurations: &Vec<&Config>) -> (fault: Option<String>)
    requires
        forall|k: int|
            0 <= k < configurations@.len() ==> (#[trigger] configurations@[k]).effective_at >= 0,
    ensures
        ({
            let limits = limit_views(configurations@);
            match fault {
                Some(fault) => model::first_ambiguity(limits, limits.len()) == Some(fault@),
                None => model::first_ambiguity(limits, limits.len()) is None && unambiguous(limits),
            }
        }),
{
    let ghost limits = limit_views(configurations@);
    let mut freezers: Vec<&str> = Vec::new();
    let mut i: usize = 0;
    while i < configurations.len()
        invariant
            i <= configurations@.len(),
            limits == limit_views(configurations@),
            freezers@.len() == i,
            forall|j: int| 0 <= j < i ==> (#[trigger] freezers@[j])@ == limits[j].freezer,
        decreases configurations@.len() - i,
    {
        assert(limits[i as int] == configurations@[i as int]@);
        freezers.push(configurations[i].freezer_id.as_str());
        i = i + 1;
    }
    let ranks = rank_texts(&freezers);
    let mut k: usize = 0;
    while k < configurations.len()
        invariant
            k <= configurations@.len() == limits.len(),
            limits == limit_views(configurations@),
            freezers@.len() == limits.len(),
            forall|j: int|
                0 <= j < freezers@.len() ==> (#[trigger] freezers@[j])@ == limits[j].freezer,
            text::ranks_of(ranks@, freezers@),
            forall|x: int|
                0 <= x < configurations@.len() ==> (#[trigger] configurations@[x]).effective_at
                    >= 0,
            model::first_ambiguity(limits, k as nat) is None,
            forall|a: int, b: int|
                0 <= a < b < k ==> !model::same_slot(#[trigger] limits[a], #[trigger] limits[b]),
        decreases configurations@.len() - k,
    {
        assert(limits[k as int] == configurations@[k as int]@);
        assert(freezers@[k as int]@ == limits[k as int].freezer);
        let mut m: usize = 0;
        while m < k
            invariant
                m <= k < configurations@.len() == limits.len(),
                limits == limit_views(configurations@),
                freezers@.len() == limits.len(),
                forall|j: int|
                    0 <= j < freezers@.len() ==> (#[trigger] freezers@[j])@ == limits[j].freezer,
                text::ranks_of(ranks@, freezers@),
                configurations@[k as int].effective_at >= 0,
                limits[k as int] == configurations@[k as int]@,
                model::first_ambiguity(limits, k as nat) is None,
                forall|x: int|
                    0 <= x < m ==> !model::same_slot(#[trigger] limits[x], limits[k as int]),
            decreases k - m,
        {
            proof {
                assert(limits[m as int] == configurations@[m as int]@);
                assert(freezers@[m as int]@ == limits[m as int].freezer);
                assert(freezers@[k as int]@ == limits[k as int].freezer);
                assert((ranks@[m as int] == ranks@[k as int]) == (freezers@[m as int]@
                    == freezers@[k as int]@));
            }
            if ranks[m] == ranks[k] && configurations[m].effective_at
                == configurations[k].effective_at {
                let mut fault = joined3(
                    "ambiguous configuration interval for freezer ",
                    configurations[k].freezer_id.as_str(),
                    " at ",
                );
                push_decimal(&mut fault, configurations[k].effective_at as u64);
                proof {
                    assert(model::same_slot(limits[m as int], limits[k as int]));
                    lemma_ambiguity_stays(limits, (k + 1) as nat, limits.len());
                }
                return Some(fault);
            }
            m = m + 1;
        }
        proof {
            assert forall|a: int, b: int| 0 <= a < b < k + 1 implies !model::same_slot(
                #[trigger] limits[a],
                #[trigger] limits[b],
            ) by {
                if b == k {
                    assert(!model::same_slot(limits[a], limits[k as int]));
                }
            }
        }
        k = k + 1;
    }
    None
}

/// Checks an archive: each record by itself, the corrections, and the limits.
pub fn validate(records: &[Record]) -> (result: Result<Validated, String>)
    ensures
        match result {
            Ok(validated) => model::archive_error(model::entries(records@)) is None
                && validated.describes(model::entries(records@)),
            Err(fault) => model::archive_error(model::entries(records@)) == Some(fault@),
        },
{
    let ghost shown = model::entries(records@);
    if let Some(fault) = check_records(records) {
        return Err(fault);
    }
    proof {
        lemma_settled(shown, shown.len());
    }
    let observations = list_observations(records);
    let configurations = list_configurations(records);
    let ghost all = obs_views(observations@);
    let ghost limits = limit_views(configurations@);
    let corrections = match resolve_corrections(&observations) {
        Ok(corrections) => corrections,
        Err(fault) => {
            return Err(fault);
        },
    };
    if let Some(fault) = find_cycle(&observations, &corrections) {
        return Err(fault);
    }
    proof {
        lemma_times(shown, all, limits);
        assert forall|k: int| 0 <= k < configurations@.len() implies (
        #[trigger] configurations@[k]).effective_at >= 0 by {
            assert(limits[k] == configurations@[k]@);
        }
    }
    if let Some(fault) = find_ambiguity(&configurations) {
        return Err(fault);
    }
    let mut replaced: Vec<bool> = Vec::new();
    let mut k: usize = 0;
    while k < observations.len()
        invariant
            k <= observations@.len() == all.len(),
            all == obs_views(observations@),
            linked(
                corrections.targets@,
                corrections.replacers@,
                all,
                all.len() as int,
            ),
            replaced@.len() == k,
            forall|j: int|
                0 <= j < k ==> (#[trigger] replaced@[j]) == !model::stands(all, all[j]),
        decreases observations@.len() - k,
    {
        proof {
            assert(all.contains(all[k as int]));
            match corrections.replacers@[k as int] {
                Some(y) => {
                    assert(model::replaces(all, y as int, k as int));
                },
                None => {
                    assert forall|m: int| 0 <= m < all.len() implies (#[trigger] all[m]).replaces
                        != Some(all[k as int].id) by {
                        assert(!model::replaces(all, m, k as int));
                    }
                },
            }
        }
        replaced.push(corrections.replacers[k].is_some());
        k = k + 1;
    }
    let validated = Validated { observations, configurations, replaced };
    proof {
        assert forall|k: int| 0 <= k < validated.observations@.len() implies (
        #[trigger] validated.observations@[k]).observed_at >= 0 by {
            assert(all[k] == validated.observations@[k]@);
        }
    }
    Ok(validated)
}

/// Times in an archive in order are not negative.
proof fn lemma_times(records: Seq<Entry>, all: Seq<Obs>, limits: Seq<Limit>)
    requires
        model::first_record_fault(records, records.len()) is None,
        all == model::observations(records),
        limits == model::configurations(records),
    ensures
        forall|k: int| 0 <= k < all.len() ==> (#[trigger] all[k]).observed_at >= 0,
        forall|k: int| 0 <= k < limits.len() ==> (#[trigger] limits[k]).effective_at >= 0,
{
    lemma_settled(records, records.len());
    lemma_ids_listed(records);
    let ids = text::in_order(model::observation_ids(records));
    assert forall|k: int| 0 <= k < all.len() implies (#[trigger] all[k]).observed_at >= 0 by {
        assert(ids.contains(ids[k]));
        let i = choose|i: int|
            0 <= i < records.len() && model::observation_id(#[trigger] records[i]) == Some(ids[k]);
        assert(model::observation_id(records[i]) == Some(ids[k]));
        assert(ok_alone(records[i]));
    }
    let names = text::in_order(model::configuration_ids(records));
    assert forall|k: int| 0 <= k < limits.len() implies (#[trigger] limits[k]).effective_at >= 0 by {
        assert(names.contains(names[k]));
        let i = choose|i: int|
            0 <= i < records.len() && model::configuration_id(#[trigger] records[i]) == Some(
                names[k],
            );
        assert(model::configuration_id(records[i]) == Some(names[k]));
        assert(ok_alone(records[i]));
    }
}

/// The identities of an archive can be listed.
pub proof fn lemma_ids_listed(records: Seq<Entry>)
    ensures
        text::lists(
            text::in_order(model::observation_ids(records)),
            model::observation_ids(records),
        ),
        text::lists(
            text::in_order(model::configuration_ids(records)),
            model::configuration_ids(records),
        ),
{
    let names = records.map_values(|entry: Entry| id_of(entry));
    vstd::seq_lib::seq_to_set_is_finite(names);
    let a = model::observation_ids(records);
    let b = model::configuration_ids(records);
    assert forall|id: Seq<char>| a.contains(id) implies names.to_set().contains(id) by {
        let i = choose|i: int|
            0 <= i < records.len() && model::observation_id(#[trigger] records[i]) == Some(id);
        assert(names[i] == id);
    }
    assert forall|id: Seq<char>| b.contains(id) implies names.to_set().contains(id) by {
        let i = choose|i: int|
            0 <= i < records.len() && model::configuration_id(#[trigger] records[i]) == Some(id);
        assert(names[i] == id);
    }
    vstd::set_lib::lemma_set_subset_finite(names.to_set(), a);
    vstd::set_lib::lemma_set_subset_finite(names.to_set(), b);
    text::lemma_listed(a);
    text::lemma_listed(b);
}

} // verus!
