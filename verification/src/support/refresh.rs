//! A table of cases under refreshes, and what may be shown of it.

use vstd::prelude::*;
use crate::chars;
use crate::chars::{chars_of, lowered};
use crate::kiosk;
use crate::kiosk::search::does_occur;
use crate::support::cases;
use crate::support::cases::{case, Account, Case};
use crate::support::fixture::{Step, Update};
use crate::support::search;
use crate::support::search::{find_case, Hit, Shown};
use crate::text;
use crate::text::{push_decimal, same_text};

verus! {

/// No two cases have the same id.
pub open spec fn distinct(rows: Seq<Account>) -> bool {
    forall|i: int, j: int|
        0 <= i < j < rows.len() ==> (#[trigger] rows[i]).case_id != (#[trigger] rows[j]).case_id
}

/// The case of an id, if there is one.
pub open spec fn found(rows: Seq<Account>, case_id: u64) -> Option<Account> {
    let at = search::place_of(rows, case_id, 0);
    if at < rows.len() {
        Some(rows[at])
    } else {
        None
    }
}

/// The id that a step is about.
pub open spec fn subject_of(step: Step) -> u64 {
    match step {
        Step::Remove { case_id } => case_id,
        Step::Upsert { row } => row.case_id,
    }
}

/// The table after a step: a case goes, is replaced where it stands, or comes last.
pub open spec fn refreshed(rows: Seq<Account>, step: Step) -> Seq<Account> {
    let at = search::place_of(rows, subject_of(step), 0);
    match step {
        Step::Remove { .. } => if at < rows.len() {
            rows.remove(at)
        } else {
            rows
        },
        Step::Upsert { row } => if at < rows.len() {
            rows.update(at, row)
        } else {
            rows.push(row)
        },
    }
}

/// The table after the first steps.
pub open spec fn refreshed_by(rows: Seq<Account>, steps: Seq<Step>, n: nat) -> Seq<Account>
    decreases n,
{
    if n == 0 {
        rows
    } else {
        refreshed(refreshed_by(rows, steps, (n - 1) as nat), steps[n - 1])
    }
}

pub open spec fn steps_of(updates: Seq<Update>) -> Seq<Step> {
    updates.map_values(|update: Update| update@)
}

/// Takes one step.
pub fn apply_update(rows: &mut Vec<Case>, update: Update)
    ensures
        cases::accounts(final(rows)@) == refreshed(cases::accounts(old(rows)@), update@),
{
    let ghost before = cases::accounts(rows@);
    let ghost step = update@;
    match update {
        Update::Remove { case_id } => {
            let at: usize = find_case(rows.as_slice(), case_id);
            if at < rows.len() {
                let _ = rows.remove(at);
            }
        },
        Update::Upsert { row } => {
            let at: usize = find_case(rows.as_slice(), row.case_id);
            if at < rows.len() {
                rows.set(at, row);
            } else {
                rows.push(row);
            }
        },
    }
    assert(cases::accounts(rows@) =~= refreshed(before, step));
}

/// Takes the steps of a refresh, one after another.
pub fn apply_updates(rows: &mut Vec<Case>, updates: Vec<Update>)
    ensures
        cases::accounts(final(rows)@) == refreshed_by(
            cases::accounts(old(rows)@),
            steps_of(updates@),
            updates@.len(),
        ),
{
    let ghost steps = steps_of(updates@);
    let ghost before = cases::accounts(rows@);
    for update in it: updates
        invariant
            it.seq() == updates@,
            steps == steps_of(updates@),
            cases::accounts(rows@) == refreshed_by(before, steps, it.index() as nat),
    {
        proof {
            let next = (it.index() + 1) as nat;
            assert(steps[it.index()] == update@);
            assert(refreshed_by(before, steps, next) == refreshed(
                refreshed_by(before, steps, (next - 1) as nat),
                steps[next - 1],
            ));
        }
        apply_update(rows, update);
    }
}

/// What a refresh of the sample cases does: one is edited, one goes, one comes.
pub open spec fn sample_steps() -> Seq<Step> {
    let edited = cases::case_of(
        1001u64,
        "en"@,
        "calendar"@,
        "Calendar stops updating"@,
        "Events and appointments disappear because the OAuth credential expired."@,
        "Reconnect the calendar integration to replace the expired OAuth token."@,
    );
    seq![
        Step::Upsert { row: Account { modified_at: "2026-08-10T00:00:00Z"@, ..edited } },
        Step::Remove { case_id: 1002u64 },
        Step::Upsert {
            row: cases::case_of(
                3001u64,
                "en"@,
                "calendar"@,
                "Calendar authorization expired"@,
                "Appointments disappear when the workspace credential is revoked."@,
                "Reconnect the approved calendar integration."@,
            ),
        },
    ]
}

/// The steps of a refresh of the sample cases.
pub fn sample_updates() -> (updates: Vec<Update>)
    ensures
        steps_of(updates@) == sample_steps(),
{
    let mut edited = case(
        1001,
        "en",
        "calendar",
        "Calendar stops updating",
        "Events and appointments disappear because the OAuth credential expired.",
        "Reconnect the calendar integration to replace the expired OAuth token.",
    );
    edited.modified_at = "2026-08-10T00:00:00Z".to_owned();
    let added = case(
        3001,
        "en",
        "calendar",
        "Calendar authorization expired",
        "Appointments disappear when the workspace credential is revoked.",
        "Reconnect the approved calendar integration.",
    );
    let mut updates: Vec<Update> = Vec::new();
    updates.push(Update::Upsert { row: edited });
    updates.push(Update::Remove { case_id: 1002 });
    updates.push(Update::Upsert { row: added });
    assert(steps_of(updates@) =~= sample_steps());
    updates
}

/// Where ids are distinct, the case that stands at a place is the one of its id.
proof fn lemma_found(rows: Seq<Account>, i: int)
    requires
        distinct(rows),
        0 <= i < rows.len(),
    ensures
        search::place_of(rows, rows[i].case_id, 0) == i,
{
    let id = rows[i].case_id;
    search::lemma_place_of(rows, id, 0);
    lemma_reached(rows, id, 0, i);
}

/// A search stops no later than at a case of the id.
proof fn lemma_reached(rows: Seq<Account>, id: u64, from: int, i: int)
    requires
        0 <= from <= i < rows.len(),
        rows[i].case_id == id,
    ensures
        search::place_of(rows, id, from) <= i,
    decreases i - from,
{
    if from < i && rows[from].case_id != id {
        lemma_reached(rows, id, from + 1, i);
    }
}

/// A step keeps the ids distinct.
pub proof fn refreshes_keep_ids_distinct(rows: Seq<Account>, step: Step)
    requires
        distinct(rows),
    ensures
        distinct(refreshed(rows, step)),
{
    let id = subject_of(step);
    let at = search::place_of(rows, id, 0);
    search::lemma_place_of(rows, id, 0);
    if let Step::Upsert { row } = step {
        if at == rows.len() {
            assert forall|i: int| 0 <= i < rows.len() implies (#[trigger] rows[i]).case_id
                != id by {
                if rows[i].case_id == id {
                    lemma_reached(rows, id, 0, i);
                }
            }
        }
    }
}

/// After a step, the table tells of its case what the step said, and of every other
/// case what it told before.
pub proof fn refreshes_tell_the_latest(rows: Seq<Account>, step: Step, id: u64)
    requires
        distinct(rows),
    ensures
        found(refreshed(rows, step), id) == (if id != subject_of(step) {
            found(rows, id)
        } else {
            match step {
                Step::Remove { .. } => None,
                Step::Upsert { row } => Some(row),
            }
        }),
{
    let after = refreshed(rows, step);
    let subject = subject_of(step);
    let at = search::place_of(rows, subject, 0);
    search::lemma_place_of(rows, subject, 0);
    search::lemma_place_of(rows, id, 0);
    search::lemma_place_of(after, id, 0);
    refreshes_keep_ids_distinct(rows, step);
    let place = search::place_of(rows, id, 0);
    let later = search::place_of(after, id, 0);
    if id == subject {
        match step {
            Step::Remove { .. } => {
                if later < after.len() {
                    let source = if at < rows.len() && later >= at {
                        later + 1
                    } else {
                        later
                    };
                    assert(after[later] == rows[source]);
                    lemma_found(rows, source);
                }
            },
            Step::Upsert { row } => {
                let new = if at < rows.len() {
                    at
                } else {
                    rows.len() as int
                };
                assert(after[new] == row);
                lemma_found(after, new);
            },
        }
    } else {
        if place < rows.len() {
            let new = if step is Remove && at < rows.len() && place > at {
                place - 1
            } else {
                place
            };
            assert(after[new] == rows[place]);
            lemma_found(after, new);
        } else if later < after.len() {
            let source = if step is Remove && at < rows.len() && later >= at {
                later + 1
            } else {
                later
            };
            assert(source < rows.len() && after[later] == rows[source]);
            lemma_reached(rows, id, 0, source);
        }
    }
}

/// The product areas and languages that may be shown.
pub open spec fn is_approved(product_area: Seq<char>, language: Seq<char>) -> bool {
    &&& product_area == "calendar"@ || product_area == "billing"@ || product_area == "identity"@
        || product_area == "exports"@ || product_area == "notifications"@ || product_area
        == "mobile"@
    &&& language == "en"@ || language == "es"@
}

/// Whether a hit shows approved areas and languages only.
pub fn shows_approved(hit: &Hit) -> (approved: bool)
    ensures
        approved == is_approved(hit@.product_area, hit@.language),
{
    let area = hit.product_area.as_str();
    let language = hit.language.as_str();
    (same_text(area, "calendar") || same_text(area, "billing") || same_text(area, "identity")
        || same_text(area, "exports") || same_text(area, "notifications") || same_text(
        area,
        "mobile",
    )) && (same_text(language, "en") || same_text(language, "es"))
}

/// A text in lower case, character by character.
pub open spec fn in_lower_case(shown: Seq<char>) -> Seq<char>
    decreases shown.len(),
{
    if shown.len() == 0 {
        Seq::empty()
    } else {
        in_lower_case(shown.drop_last()) + chars::lower_case(shown.last())
    }
}

/// The line that shows a hit.
pub open spec fn display_of(hit: Shown) -> Seq<char> {
    text::decimal(hit.case_id as nat) + " "@ + hit.product_area + " "@ + hit.language + " "@
        + hit.excerpt
}

/// The line that shows a hit.
pub fn display(hit: &Hit) -> (line: String)
    ensures
        line@ == display_of(hit@),
{
    let mut line = String::new();
    push_decimal(&mut line, hit.case_id);
    assert(line@ =~= text::decimal(hit.case_id as nat));
    line.append(" ");
    line.append(hit.product_area.as_str());
    line.append(" ");
    line.append(hit.language.as_str());
    line.append(" ");
    line.append(hit.excerpt.as_str());
    line
}

/// The line that shows a hit names a field that is never shown.
pub open spec fn names_private_field(line: Seq<char>) -> bool {
    let lower = in_lower_case(line);
    kiosk::search::occurs("email_address"@, lower) || kiosk::search::occurs("account_id"@, lower)
        || kiosk::search::occurs("customer_name"@, lower) || kiosk::search::occurs(
        "attachment"@,
        lower,
    )
}

fn lower_text(shown: &str) -> (lower: String)
    ensures
        lower@ == in_lower_case(shown@),
{
    let letters = chars_of(shown);
    let mut lower = String::new();
    let mut i: usize = 0;
    assert(letters@.take(0) =~= Seq::<char>::empty());
    while i < letters.len()
        invariant
            i <= letters@.len(),
            lower@ == in_lower_case(letters@.take(i as int)),
        decreases letters@.len() - i,
    {
        assert(letters@.take(i + 1).drop_last() =~= letters@.take(i as int));
        lower.append(lowered(letters[i]).as_str());
        i = i + 1;
    }
    assert(letters@.take(letters@.len() as int) =~= letters@);
    lower
}

/// Whether the line that shows a hit names a field that is never shown, in
/// whatever case.
pub fn shows_private_field(hit: &Hit) -> (found: bool)
    ensures
        found == names_private_field(display_of(hit@)),
{
    let lower = chars_of(lower_text(display(hit).as_str()).as_str());
    does_occur(&chars_of("email_address"), &lower) || does_occur(&chars_of("account_id"), &lower)
        || does_occur(&chars_of("customer_name"), &lower) || does_occur(
        &chars_of("attachment"),
        &lower,
    )
}

/// What is shown of approved cases is approved.
pub proof fn approved_cases_are_shown_approved(ranked: Seq<u64>, list: Seq<Account>, n: nat)
    requires
        n <= ranked.len(),
        forall|i: int|
            0 <= i < list.len() ==> is_approved(
                (#[trigger] list[i]).product_area,
                list[i].language,
            ),
    ensures
        forall|i: int|
            0 <= i < search::shown_of(ranked, list, n).len() ==> is_approved(
                (#[trigger] search::shown_of(ranked, list, n)[i]).product_area,
                search::shown_of(ranked, list, n)[i].language,
            ),
{
    search::shown_hits_quote_their_cases(ranked, list, n);
    let shown = search::shown_of(ranked, list, n);
    assert forall|i: int| 0 <= i < shown.len() implies is_approved(
        (#[trigger] shown[i]).product_area,
        shown[i].language,
    ) by {
        assert(search::quotes(shown[i], list));
        let k = choose|k: int|
            0 <= k < list.len() && search::is_quoted(shown[i], #[trigger] list[k]);
        assert(is_approved(list[k].product_area, list[k].language));
    }
}

} // verus!
