use workshop::sorting::Ranked;
use workshop::support::cases::{case, exact_excerpt};
use workshop::support::fixture::{
    fixture_cases, fixture_queries, scale_update, synthetic_case, Update,
};
use workshop::support::recall::{recall_by_language, recall_count};
use workshop::support::refresh::{
    apply_update, apply_updates, display, sample_updates, shows_approved, shows_private_field,
};
use workshop::support::search::{present_hits, rank_hits, Hit, ScoredCase};

#[test]
fn excerpt_is_always_a_source_substring() {
    let body = "áéíóú soporte exacto";
    assert!(body.contains(&exact_excerpt(body)));
}

#[test]
fn long_bodies_are_cut_after_their_first_characters() {
    let body = "é".repeat(200);
    assert_eq!(exact_excerpt(&body), "é".repeat(96));
    assert_eq!(exact_excerpt(""), "");
}

#[test]
fn equal_scores_are_ranked_by_id() {
    let hits = vec![
        ScoredCase { key: 5, case_id: 9 },
        ScoredCase { key: 7, case_id: 4 },
        ScoredCase { key: 5, case_id: 3 },
    ];
    let ranked: Vec<u64> = rank_hits(&hits).iter().map(|hit| hit.case_id).collect();
    assert_eq!(ranked, [4, 3, 9]);
    assert!(hits[1].is_le(hits[0]));
}

#[test]
fn shown_hits_quote_the_case_of_their_id() {
    let cases = fixture_cases();
    let hits = present_hits(&[2001, 7, 1001, 1002], &cases, 3);
    assert_eq!(hits.len(), 2);
    assert_eq!(hits[0].case_id, 2001);
    assert_eq!(hits[0].language, "es");
    assert_eq!(hits[0].product_area, "calendar");
    assert!(cases[6].body.starts_with(&hits[0].excerpt));
    assert_eq!(hits[1].case_id, 1001);
    assert_eq!(
        hits[1].excerpt,
        "Events added after a password change do not appear on the phone."
    );
}

#[test]
fn the_useful_searches_are_counted() {
    let queries = fixture_queries();
    let mut results: Vec<Vec<u64>> = queries.iter().map(|query| vec![query.useful_case]).collect();
    assert_eq!(recall_count(&results, &queries, 1), 6);
    results[0].insert(0, 9);
    results[5].clear();
    assert_eq!(recall_count(&results, &queries, 1), 4);
    assert_eq!(recall_count(&results, &queries, 5), 5);
    assert_eq!(recall_by_language(&results, &queries, "en", 1), (2, 3));
    assert_eq!(recall_by_language(&results, &queries, "es", 5), (2, 3));
    assert_eq!(recall_by_language(&results, &queries, "de", 5), (0, 0));
}

#[test]
fn a_refresh_removes_edits_and_inserts_in_turn() {
    assert_eq!(scale_update(100, 3), Update::Remove { case_id: 3 });
    let Update::Upsert { row } = scale_update(100, 4) else {
        panic!("an edit")
    };
    assert_eq!(
        row.body,
        "Approved fixture record 4: notification is delayed until the application opens. Edited in the representative refresh."
    );
    assert_eq!(row.modified_at, "2026-08-10T00:00:00Z");
    let Update::Upsert { row } = scale_update(100, 5) else {
        panic!("an insertion")
    };
    assert_eq!(row, synthetic_case(105));
}

#[test]
fn cases_are_searched_by_all_they_say() {
    let made = case(7, "en", "billing", "Subject", "Body", "Resolution");
    assert_eq!(made.search_text(), "Subject Body Resolution");
    let synthetic = synthetic_case(11);
    assert_eq!(synthetic.language, "en");
    assert_eq!(synthetic.product_area, "mobile");
    assert_eq!(
        synthetic.resolution,
        "Apply the documented mobile recovery procedure for fixture 11."
    );
    assert_eq!(fixture_cases().len(), 12);
    assert_eq!(fixture_cases()[7].subject, "Cargo de renovación duplicado");
}

#[test]
fn refreshes_edit_remove_and_add_cases() {
    let mut rows = fixture_cases();
    let count = rows.len();
    let third = rows[2].clone();
    apply_updates(&mut rows, sample_updates());
    assert_eq!(rows.len(), count);
    assert_eq!(rows[0].case_id, 1001);
    assert_eq!(
        rows[0].body,
        "Events and appointments disappear because the OAuth credential expired."
    );
    assert_eq!(rows[0].modified_at, "2026-08-10T00:00:00Z");
    assert!(rows.iter().all(|row| row.case_id != 1002));
    assert_eq!(rows[1], third);
    assert_eq!(rows[count - 1].case_id, 3001);
    apply_update(&mut rows, Update::Remove { case_id: 9 });
    assert_eq!(rows.len(), count);
    apply_update(&mut rows, Update::Remove { case_id: 3001 });
    assert_eq!(rows.len(), count - 1);
}

#[test]
fn approved_areas_and_languages_are_told_apart() {
    let cases = fixture_cases();
    let ranked: Vec<u64> = cases.iter().map(|case| case.case_id).collect();
    let hits = present_hits(&ranked, &cases, 100);
    assert_eq!(hits.len(), cases.len());
    assert!(hits.iter().all(shows_approved));
    let mut other = hits[0].clone();
    other.product_area = "payroll".to_string();
    assert!(!shows_approved(&other));
    other = hits[0].clone();
    other.language = "fr".to_string();
    assert!(!shows_approved(&other));
}

#[test]
fn private_fields_are_found_in_any_case() {
    let hit = |excerpt: &str| Hit {
        case_id: 1001,
        product_area: "billing".into(),
        language: "en".into(),
        excerpt: excerpt.into(),
    };
    assert_eq!(display(&hit("paid twice")), "1001 billing en paid twice");
    assert!(!shows_private_field(&hit("paid twice")));
    assert!(shows_private_field(&hit("her Email_Address is")));
    assert!(shows_private_field(&hit("ACCOUNT_ID")));
    assert!(shows_private_field(&hit("the customer_name.")));
    assert!(shows_private_field(&hit("see aTTachment")));
}
