//! Deterministic archives.

use vstd::prelude::*;
use crate::coldchain::model;
use crate::coldchain::model::{Config, Entry, Limit, Obs, Observation, Record};
use crate::seqs;
use crate::seqs::swap_items;
use crate::text;
use crate::text::{push_decimal, push_padded};

verus! {

/// One step of the linear congruential generator.
pub open spec fn next(state: u64) -> u64 {
    state.wrapping_mul(6_364_136_223_846_793_005).wrapping_add(1_442_695_040_888_963_407)
}

/// Where the generator starts for a seed.
pub open spec fn seeded(seed: u64) -> u64 {
    seed ^ 0x9e37_79b9_7f4a_7c15u64
}

/// The generator after `n` steps.
pub open spec fn stepped(state: u64, n: nat) -> u64
    decreases n,
{
    if n == 0 {
        state
    } else {
        next(stepped(state, (n - 1) as nat))
    }
}

struct Lcg {
    state: u64,
}

impl Lcg {
    fn new(seed: u64) -> (generator: Self)
        ensures
            generator.state == seeded(seed),
    {
        Lcg { state: seed ^ 0x9e37_79b9_7f4a_7c15u64 }
    }

    fn next(&mut self) -> (drawn: u64)
        ensures
            final(self).state == next(old(self).state),
            drawn == next(old(self).state),
    {
        self.state = self.state.wrapping_mul(6_364_136_223_846_793_005).wrapping_add(
            1_442_695_040_888_963_407,
        );
        self.state
    }
}

pub open spec fn freezer_name(freezer: nat) -> Seq<char> {
    "freezer-"@ + text::padded(freezer, 3)
}

fn name_freezer(freezer: usize) -> (name: String)
    ensures
        name@ == freezer_name(freezer as nat),
{
    let mut name = "freezer-".to_owned();
    push_padded(&mut name, freezer as u64, 3);
    name
}

/// The limit that a freezer starts with.
pub open spec fn base_limit(freezer: nat) -> Limit {
    Limit {
        id: "cfg-"@ + text::decimal(freezer) + "-base"@,
        freezer: freezer_name(freezer),
        effective_at: 0,
        min_temp_tenths: (-220) as i32,
        max_temp_tenths: (-180) as i32,
    }
}

pub open spec fn reading_name(freezer: nat, step: nat) -> Seq<char> {
    "o-"@ + text::decimal(freezer) + "-"@ + text::decimal(step)
}

/// The reading of a freezer at a step, from the next two numbers.
pub open spec fn base_reading(state: u64, freezer: nat, step: nat) -> Obs {
    let phase = (step + freezer * 7) % 64;
    let base = if 8 <= phase <= 25 {
        -170int
    } else {
        -200int
    };
    Obs {
        id: reading_name(freezer, step),
        freezer: freezer_name(freezer),
        observed_at: (step * 30) as i64,
        received_at: (step * 30 + stepped(state, 2) % 21_601) as i64,
        temp_tenths: (base + stepped(state, 1) % 5 - 2) as i32,
        gateway_sequence: step as u64,
        replaces: None,
    }
}

/// The first `n` base limits.
pub open spec fn base_limits(n: nat) -> Seq<Entry> {
    Seq::new(n, |freezer: int| Entry::Configuration(base_limit(freezer as nat)))
}

/// The readings of the first `freezers` freezers at a step.
pub open spec fn step_readings(state: u64, step: nat, freezers: nat) -> Seq<Entry>
    decreases freezers,
{
    if freezers == 0 {
        Seq::empty()
    } else {
        let before = (freezers - 1) as nat;
        step_readings(state, step, before).push(
            Entry::Observation(base_reading(stepped(state, 2 * before), before, step)),
        )
    }
}

/// The readings of all freezers at the first `steps` steps.
pub open spec fn base_readings(state: u64, freezers: nat, steps: nat) -> Seq<Entry>
    decreases steps,
{
    if steps == 0 {
        Seq::empty()
    } else {
        let before = (steps - 1) as nat;
        base_readings(state, freezers, before) + step_readings(
            step_state(state, freezers, before),
            before,
            freezers,
        )
    }
}

/// The generator when a step begins.
pub open spec fn step_state(state: u64, freezers: nat, step: nat) -> u64
    decreases step,
{
    if step == 0 {
        state
    } else {
        stepped(step_state(state, freezers, (step - 1) as nat), 2 * freezers)
    }
}

/// A limit that is known only late.
pub open spec fn backdated(freezers: nat, readings: nat) -> Seq<Entry> {
    if freezers > 0 && readings > 20 {
        seq![
            Entry::Configuration(
                Limit {
                    id: "cfg-0-backdated-maintenance"@,
                    freezer: "freezer-000"@,
                    effective_at: 600,
                    min_temp_tenths: (-220) as i32,
                    max_temp_tenths: (-160) as i32,
                },
            ),
        ]
    } else {
        Seq::empty()
    }
}

/// A reading that is corrected late.
pub open spec fn corrected(freezers: nat, readings: nat) -> Seq<Entry> {
    if freezers > 1 && readings > 12 {
        seq![
            Entry::Observation(
                Obs {
                    id: "correction-freezer-1-step-12"@,
                    freezer: "freezer-001"@,
                    observed_at: 360,
                    received_at: 605_160,
                    temp_tenths: (-200) as i32,
                    gateway_sequence: (readings + 1) as u64,
                    replaces: Some("o-1-12"@),
                },
            ),
        ]
    } else {
        Seq::empty()
    }
}

/// The first reading once more.
pub open spec fn repeated(state: u64, freezers: nat, readings: nat) -> Seq<Entry> {
    if freezers > 0 && readings > 0 {
        seq![Entry::Observation(base_reading(state, 0, 0))]
    } else {
        Seq::empty()
    }
}

/// A whole generated archive.
pub open spec fn fixture_of(seed: u64, freezers: nat, readings: nat) -> Seq<Entry> {
    base_limits(freezers) + base_readings(seeded(seed), freezers, readings) + backdated(
        freezers,
        readings,
    ) + corrected(freezers, readings) + repeated(seeded(seed), freezers, readings)
}

fn make_reading(rng: &mut Lcg, freezer: usize, step: usize) -> (record: Record)
    requires
        step + freezer * 7 <= usize::MAX,
        step * 30 + 21_600 <= i64::MAX,
    ensures
        record@ == Entry::Observation(
            base_reading(old(rng).state, freezer as nat, step as nat),
        ),
        final(rng).state == stepped(old(rng).state, 2),
{
    proof {
        reveal_with_fuel(stepped, 3);
    }
    let phase: usize = (step + freezer * 7) % 64;
    let base: i32 = if 8 <= phase && phase <= 25 {
        -170
    } else {
        -200
    };
    let jitter: i32 = (rng.next() % 5) as i32 - 2;
    let observed_at: i64 = step as i64 * 30;
    let lateness: i64 = (rng.next() % 21_601) as i64;
    let mut observation_id = "o-".to_owned();
    push_decimal(&mut observation_id, freezer as u64);
    observation_id.append("-");
    push_decimal(&mut observation_id, step as u64);
    Record::Observation(
        Observation {
            observation_id,
            freezer_id: name_freezer(freezer),
            observed_at,
            received_at: observed_at + lateness,
            temp_tenths: base + jitter,
            gateway_sequence: step as u64,
            replaces_observation_id: None,
        },
    )
}

proof fn lemma_stepped(state: u64, n: nat, m: nat)
    ensures
        stepped(stepped(state, n), m) == stepped(state, n + m),
    decreases m,
{
    if m > 0 {
        lemma_stepped(state, n, (m - 1) as nat);
    }
}

fn make_step(rng: &mut Lcg, freezers: usize, step: usize, records: &mut Vec<Record>)
    requires
        step + freezers * 7 <= usize::MAX,
        step * 30 + 21_600 <= i64::MAX,
    ensures
        model::entries(final(records)@) == model::entries(old(records)@) + step_readings(
            old(rng).state,
            step as nat,
            freezers as nat,
        ),
        final(rng).state == stepped(old(rng).state, 2 * freezers as nat),
{
    let ghost state = rng.state;
    let ghost given = model::entries(records@);
    let mut freezer: usize = 0;
    assert(given + step_readings(state, step as nat, 0) =~= given);
    while freezer < freezers
        invariant
            freezer <= freezers,
            step + freezers * 7 <= usize::MAX,
            step * 30 + 21_600 <= i64::MAX,
            rng.state == stepped(state, 2 * freezer as nat),
            model::entries(records@) == given + step_readings(state, step as nat, freezer as nat),
        decreases freezers - freezer,
    {
        let ghost before = records@;
        let record = make_reading(rng, freezer, step);
        records.push(record);
        proof {
            lemma_stepped(state, 2 * freezer as nat, 2);
            assert(model::entries(records@) =~= model::entries(before).push(record@));
            assert(model::entries(records@) =~= given + step_readings(
                state,
                step as nat,
                (freezer + 1) as nat,
            ));
        }
        freezer = freezer + 1;
    }
}

/// The first reading of all.
proof fn lemma_first_reading(state: u64, freezers: nat, steps: nat)
    requires
        freezers > 0,
        steps > 0,
    ensures
        base_readings(state, freezers, steps).len() > 0,
        base_readings(state, freezers, steps)[0] == Entry::Observation(base_reading(state, 0, 0)),
    decreases steps,
{
    lemma_first_of_step(step_state(state, freezers, (steps - 1) as nat), (steps - 1) as nat, freezers);
    if steps > 1 {
        lemma_first_reading(state, freezers, (steps - 1) as nat);
    } else {
        assert(base_readings(state, freezers, 0) =~= Seq::empty());
    }
}

proof fn lemma_first_of_step(state: u64, step: nat, freezers: nat)
    requires
        freezers > 0,
    ensures
        step_readings(state, step, freezers).len() == freezers,
        step_readings(state, step, freezers)[0] == Entry::Observation(base_reading(state, 0, step)),
    decreases freezers,
{
    if freezers > 1 {
        lemma_first_of_step(state, step, (freezers - 1) as nat);
    } else {
        reveal_with_fuel(step_readings, 2);
    }
}

/// A record once more.
pub fn copy_record(record: &Record) -> (copy: Record)
    ensures
        copy@ == record@,
{
    match record {
        Record::Observation(observation) => Record::Observation(
            Observation {
                observation_id: observation.observation_id.as_str().to_owned(),
                freezer_id: observation.freezer_id.as_str().to_owned(),
                observed_at: observation.observed_at,
                received_at: observation.received_at,
                temp_tenths: observation.temp_tenths,
                gateway_sequence: observation.gateway_sequence,
                replaces_observation_id: match &observation.replaces_observation_id {
                    Some(target) => Some(target.as_str().to_owned()),
                    None => None,
                },
            },
        ),
        Record::Configuration(config) => Record::Configuration(
            Config {
                configuration_id: config.configuration_id.as_str().to_owned(),
                freezer_id: config.freezer_id.as_str().to_owned(),
                effective_at: config.effective_at,
                min_temp_tenths: config.min_temp_tenths,
                max_temp_tenths: config.max_temp_tenths,
            },
        ),
    }
}

fn make_limits(freezers: usize) -> (records: Vec<Record>)
    ensures
        model::entries(records@) == base_limits(freezers as nat),
{
    let mut records: Vec<Record> = Vec::new();
    let mut freezer: usize = 0;
    while freezer < freezers
        invariant
            freezer <= freezers,
            model::entries(records@) =~= base_limits(freezer as nat),
        decreases freezers - freezer,
    {
        let ghost before = records@;
        let mut configuration_id = "cfg-".to_owned();
        push_decimal(&mut configuration_id, freezer as u64);
        configuration_id.append("-base");
        let record = Record::Configuration(
            Config {
                configuration_id,
                freezer_id: name_freezer(freezer),
                effective_at: 0,
                min_temp_tenths: -220i32,
                max_temp_tenths: -180i32,
            },
        );
        records.push(record);
        assert(model::entries(records@) =~= model::entries(before).push(record@));
        freezer = freezer + 1;
    }
    records
}

fn push_record(records: &mut Vec<Record>, record: Record)
    ensures
        model::entries(final(records)@) == model::entries(old(records)@) + seq![record@],
{
    records.push(record);
    assert(model::entries(records@) =~= model::entries(old(records)@) + seq![record@]);
}

/// Creates readings, limits, a late correction, a backdated limit and a repetition.
pub fn generated_fixture(seed: u64, freezer_count: usize, readings_per_freezer: usize) -> (records:
    Vec<Record>)
    requires
        readings_per_freezer + freezer_count * 7 <= usize::MAX,
        readings_per_freezer * 30 + 21_600 <= i64::MAX,
        readings_per_freezer < u64::MAX,
    ensures
        model::entries(records@) == fixture_of(
            seed,
            freezer_count as nat,
            readings_per_freezer as nat,
        ),
{
    let ghost f = freezer_count as nat;
    let ghost r = readings_per_freezer as nat;
    let ghost start = seeded(seed);
    let mut rng = Lcg::new(seed);
    let mut records = make_limits(freezer_count);
    let mut step: usize = 0;
    assert(base_limits(f) + base_readings(start, f, 0) =~= base_limits(f));
    while step < readings_per_freezer
        invariant
            step <= readings_per_freezer,
            f == freezer_count,
            r == readings_per_freezer,
            readings_per_freezer + freezer_count * 7 <= usize::MAX,
            readings_per_freezer * 30 + 21_600 <= i64::MAX,
            rng.state == step_state(start, f, step as nat),
            model::entries(records@) == base_limits(f) + base_readings(start, f, step as nat),
        decreases readings_per_freezer - step,
    {
        make_step(&mut rng, freezer_count, step, &mut records);
        proof {
            assert(model::entries(records@) =~= base_limits(f) + base_readings(
                start,
                f,
                (step + 1) as nat,
            ));
        }
        step = step + 1;
    }
    let ghost whole = model::entries(records@);
    let again: Option<Record> = if freezer_count > 0 && readings_per_freezer > 0 {
        proof {
            lemma_first_reading(start, f, r);
            assert(whole[f as int] == base_readings(start, f, r)[0]);
            assert(records@.len() == whole.len());
            assert(records@[f as int]@ == whole[f as int]);
        }
        Some(copy_record(&records[freezer_count]))
    } else {
        None
    };
    assert(whole + backdated(f, r) + corrected(f, r) + repeated(start, f, r) == fixture_of(
        seed,
        f,
        r,
    ));
    if freezer_count > 0 && readings_per_freezer > 20 {
        push_record(
            &mut records,
            Record::Configuration(
                Config {
                    configuration_id: "cfg-0-backdated-maintenance".to_owned(),
                    freezer_id: "freezer-000".to_owned(),
                    effective_at: 600,
                    min_temp_tenths: -220i32,
                    max_temp_tenths: -160i32,
                },
            ),
        );
    } else {
        assert(whole + backdated(f, r) =~= whole);
    }
    let ghost late = model::entries(records@);
    assert(late =~= whole + backdated(f, r));
    if freezer_count > 1 && readings_per_freezer > 12 {
        push_record(
            &mut records,
            Record::Observation(
                Observation {
                    observation_id: "correction-freezer-1-step-12".to_owned(),
                    freezer_id: "freezer-001".to_owned(),
                    observed_at: 360,
                    received_at: 605_160,
                    temp_tenths: -200i32,
                    gateway_sequence: readings_per_freezer as u64 + 1,
                    replaces_observation_id: Some("o-1-12".to_owned()),
                },
            ),
        );
    } else {
        assert(late + corrected(f, r) =~= late);
    }
    let ghost mended = model::entries(records@);
    assert(mended =~= late + corrected(f, r));
    match again {
        Some(record) => {
            push_record(&mut records, record);
        },
        None => {
            assert(mended + repeated(start, f, r) =~= mended);
        },
    }
    records
}

/// The shuffle of the places up to `index`, from the last one down.
pub open spec fn shuffled_from<T>(items: Seq<T>, state: u64, index: nat) -> Seq<T>
    decreases index,
{
    if index == 0 {
        items
    } else {
        shuffled_from(
            seqs::swapped(items, index as int, next(state) as int % (index as int + 1)),
            next(state),
            (index - 1) as nat,
        )
    }
}

/// The records of an archive in the order that a seed gives them.
pub open spec fn shuffle_of(entries: Seq<Entry>, seed: u64) -> Seq<Entry> {
    if entries.len() == 0 {
        entries
    } else {
        shuffled_from(entries, seeded(seed), (entries.len() - 1) as nat)
    }
}

/// A shuffle moves records and nothing else.
pub proof fn shuffle_keeps_records(entries: Seq<Entry>, seed: u64)
    ensures
        shuffle_of(entries, seed).to_multiset() == entries.to_multiset(),
{
    if entries.len() > 0 {
        lemma_shuffled(entries, seeded(seed), (entries.len() - 1) as nat);
    }
}

proof fn lemma_shuffled<T>(items: Seq<T>, state: u64, index: nat)
    requires
        index < items.len(),
    ensures
        shuffled_from(items, state, index).to_multiset() == items.to_multiset(),
    decreases index,
{
    if index > 0 {
        let other = next(state) as int % (index as int + 1);
        seqs::lemma_swapped(items, index as int, other);
        lemma_shuffled(
            seqs::swapped(items, index as int, other),
            next(state),
            (index - 1) as nat,
        );
    }
}

/// A copy of the records in the order that a seed gives them.
pub fn shuffled(records: &[Record], seed: u64) -> (output: Vec<Record>)
    ensures
        model::entries(output@) == shuffle_of(model::entries(records@), seed),
{
    let ghost entries = model::entries(records@);
    let mut output: Vec<Record> = Vec::new();
    let mut i: usize = 0;
    while i < records.len()
        invariant
            i <= records@.len(),
            entries == model::entries(records@),
            model::entries(output@) =~= entries.take(i as int),
        decreases records@.len() - i,
    {
        let ghost before = output@;
        let record = copy_record(&records[i]);
        output.push(record);
        proof {
            assert(entries[i as int] == record@);
            assert(model::entries(output@) =~= model::entries(before).push(record@));
            assert(entries.take(i + 1) =~= entries.take(i as int).push(record@));
        }
        i = i + 1;
    }
    assert(entries.take(entries.len() as int) =~= entries);
    assert(output@.len() == model::entries(output@).len());
    if output.len() == 0 {
        return output;
    }
    let mut rng = Lcg::new(seed);
    let mut upper: usize = output.len() - 1;
    while upper > 0
        invariant
            upper < output@.len() == entries.len(),
            shuffled_from(model::entries(output@), rng.state, upper as nat) == shuffle_of(
                entries,
                seed,
            ),
        decreases upper,
    {
        let ghost before = output@;
        let count: usize = output.len();
        assert(upper < count);
        let drawn = rng.next();
        let other: usize = (drawn % (upper as u64 + 1)) as usize;
        swap_items(&mut output, other, upper);
        proof {
            assert(model::entries(output@) =~= seqs::swapped(
                model::entries(before),
                upper as int,
                other as int,
            ));
        }
        upper = upper - 1;
    }
    output
}

/// The first `limit` observations among the first `n` records, and every
/// configuration.
pub open spec fn trimmed(entries: Seq<Entry>, limit: nat, n: nat) -> Seq<Entry>
    decreases n,
{
    if n == 0 {
        Seq::empty()
    } else {
        let kept = trimmed(entries, limit, (n - 1) as nat);
        if entries[n - 1] is Configuration || seen(entries, limit, (n - 1) as nat) < limit {
            kept.push(entries[n - 1])
        } else {
            kept
        }
    }
}

/// How many observations are kept of the first `n` records.
pub open spec fn seen(entries: Seq<Entry>, limit: nat, n: nat) -> nat
    decreases n,
{
    if n == 0 {
        0
    } else {
        let before = seen(entries, limit, (n - 1) as nat);
        if entries[n - 1] is Observation && before < limit {
            before + 1
        } else {
            before
        }
    }
}

pub const BENCHMARK_FREEZERS: usize = 400;

pub open spec fn readings_for(observations: nat) -> nat {
    (observations + 399) / 400
}

/// An archive of four hundred freezers with at most a given number of readings.
pub fn sized_benchmark_fixture(observations: usize) -> (result: (Vec<Record>, usize))
    requires
        observations <= usize::MAX / 2,
    ensures
        ({
            let whole = fixture_of(91, 400, readings_for(observations as nat));
            &&& model::entries(result.0@) == trimmed(whole, observations as nat, whole.len())
            &&& result.1 == seen(whole, observations as nat, whole.len())
        }),
{
    let remainder: usize = observations % BENCHMARK_FREEZERS;
    let readings: usize = observations / BENCHMARK_FREEZERS + if remainder > 0 {
        1
    } else {
        0
    };
    assert(readings == readings_for(observations as nat));
    let records = generated_fixture(91, BENCHMARK_FREEZERS, readings);
    let ghost whole = model::entries(records@);
    let mut kept: Vec<Record> = Vec::new();
    let mut count: usize = 0;
    let mut i: usize = 0;
    assert(model::entries(kept@) =~= trimmed(whole, observations as nat, 0));
    while i < records.len()
        invariant
            i <= records@.len(),
            whole == model::entries(records@),
            count == seen(whole, observations as nat, i as nat),
            count <= observations,
            model::entries(kept@) == trimmed(whole, observations as nat, i as nat),
        decreases records@.len() - i,
    {
        let ghost before = kept@;
        assert(whole[i as int] == records@[i as int]@);
        let keep: bool = match &records[i] {
            Record::Observation(_) => {
                if count < observations {
                    count = count + 1;
                    true
                } else {
                    false
                }
            },
            Record::Configuration(_) => true,
        };
        if keep {
            let record = copy_record(&records[i]);
            kept.push(record);
            assert(model::entries(kept@) =~= model::entries(before).push(record@));
        }
        i = i + 1;
    }
    (kept, count)
}

} // verus!
