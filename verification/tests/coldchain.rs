use serde_json::Value;
use workshop::coldchain::fixture::{generated_fixture, shuffled};
use workshop::coldchain::model::{Config, Export, Observation, Record, Transition};
use workshop::coldchain::reduce::{candidate_from_records, reference_from_records};
use workshop::coldchain::wire::{check_line, terminated, validate_wire_timestamps, WireRecord};

fn config(id: &str, freezer: &str, at: i64, min: i32, max: i32) -> Record {
    Record::Configuration(Config {
        configuration_id: id.into(),
        freezer_id: freezer.into(),
        effective_at: at,
        min_temp_tenths: min,
        max_temp_tenths: max,
    })
}

fn obs(id: &str, freezer: &str, at: i64, temp: i32) -> Record {
    Record::Observation(Observation {
        observation_id: id.into(),
        freezer_id: freezer.into(),
        observed_at: at,
        received_at: at + 21_600,
        temp_tenths: temp,
        gateway_sequence: u64::try_from(at).expect("test timestamp is non-negative"),
        replaces_observation_id: None,
    })
}

/// The records that differ from one another.
fn distinct(records: &[Record]) -> usize {
    let mut ids = std::collections::BTreeSet::new();
    for record in records {
        ids.insert(match record {
            Record::Observation(observation) => (0, observation.observation_id.clone()),
            Record::Configuration(config) => (1, config.configuration_id.clone()),
        });
    }
    ids.len()
}

fn object(fields: Vec<(&str, Value)>) -> Value {
    Value::Object(
        fields
            .into_iter()
            .map(|(name, value)| (name.to_string(), value))
            .collect(),
    )
}

fn texts(values: &[String]) -> Value {
    Value::Array(values.iter().map(|text| Value::from(text.as_str())).collect())
}

fn transition_value(transition: &Transition) -> Value {
    object(vec![
        ("action", Value::from(transition.action.as_str())),
        ("at", Value::from(transition.at)),
        (
            "trigger_observation_id",
            Value::from(transition.trigger_observation_id.as_str()),
        ),
        ("reason", Value::from(transition.reason.as_str())),
        (
            "contributing_observation_ids",
            texts(&transition.contributing_observation_ids),
        ),
        ("configuration_ids", texts(&transition.configuration_ids)),
    ])
}

fn export_value(export: &Export) -> Value {
    let freezers = export.freezers.iter().map(|freezer| {
        let incidents = freezer.incidents.iter().map(|incident| {
            let mut fields = vec![("opened", transition_value(&incident.opened))];
            if let Some(closed) = &incident.closed {
                fields.push(("closed", transition_value(closed)));
            }
            object(fields)
        });
        object(vec![
            ("freezer_id", Value::from(freezer.freezer_id.as_str())),
            (
                "current_status",
                Value::from(freezer.current_status.as_str()),
            ),
            ("incidents", Value::Array(incidents.collect())),
        ])
    });
    object(vec![("freezers", Value::Array(freezers.collect()))])
}

fn record_value(record: &Record) -> Value {
    match record {
        Record::Observation(observation) => object(vec![(
            "observation",
            object(vec![
                (
                    "observation_id",
                    Value::from(observation.observation_id.as_str()),
                ),
                ("freezer_id", Value::from(observation.freezer_id.as_str())),
                ("observed_at", Value::from(observation.observed_at)),
                ("received_at", Value::from(observation.received_at)),
                ("temp_tenths", Value::from(observation.temp_tenths)),
                (
                    "gateway_sequence",
                    Value::from(observation.gateway_sequence),
                ),
                (
                    "replaces_observation_id",
                    Value::from(observation.replaces_observation_id.clone()),
                ),
            ]),
        )]),
        Record::Configuration(config) => object(vec![(
            "configuration",
            object(vec![
                (
                    "configuration_id",
                    Value::from(config.configuration_id.as_str()),
                ),
                ("freezer_id", Value::from(config.freezer_id.as_str())),
                ("effective_at", Value::from(config.effective_at)),
                ("min_temp_tenths", Value::from(config.min_temp_tenths)),
                ("max_temp_tenths", Value::from(config.max_temp_tenths)),
            ]),
        )]),
    }
}

fn record_of(value: &Value) -> Record {
    let text = |field: &Value| field.as_str().expect("a text").to_string();
    let small = |field: &Value| {
        i32::try_from(field.as_i64().expect("an integer")).expect("an integer of 32 bits")
    };
    let observation = &value["observation"];
    if observation.is_object() {
        return Record::Observation(Observation {
            observation_id: text(&observation["observation_id"]),
            freezer_id: text(&observation["freezer_id"]),
            observed_at: observation["observed_at"].as_i64().expect("an integer"),
            received_at: observation["received_at"].as_i64().expect("an integer"),
            temp_tenths: small(&observation["temp_tenths"]),
            gateway_sequence: observation["gateway_sequence"]
                .as_u64()
                .expect("an integer"),
            replaces_observation_id: observation["replaces_observation_id"]
                .as_str()
                .map(str::to_string),
        });
    }
    let config = &value["configuration"];
    Record::Configuration(Config {
        configuration_id: text(&config["configuration_id"]),
        freezer_id: text(&config["freezer_id"]),
        effective_at: config["effective_at"].as_i64().expect("an integer"),
        min_temp_tenths: small(&config["min_temp_tenths"]),
        max_temp_tenths: small(&config["max_temp_tenths"]),
    })
}

#[test]
fn five_minute_boundary_opens_with_exact_provenance() {
    let mut records = vec![config("cfg-a", "f-1", 0, -220, -180)];
    for step in 0..=10 {
        records.push(obs(&format!("o-{step}"), "f-1", step * 30, -170));
    }

    let export = reference_from_records(&records).expect("valid fixture");
    assert_eq!(export.freezers[0].incidents.len(), 1);
    let opened = &export.freezers[0].incidents[0].opened;
    assert_eq!(opened.at, 300);
    assert_eq!(opened.trigger_observation_id, "o-10");
    assert_eq!(opened.contributing_observation_ids.len(), 11);
    assert_eq!(opened.configuration_ids, vec!["cfg-a"]);
}

#[test]
fn ten_minute_boundary_closes_and_exports_canonical_bytes() {
    let mut records = vec![config("cfg-a", "f-1", 0, -220, -180)];
    for step in 0..=10 {
        records.push(obs(&format!("bad-{step}"), "f-1", step * 30, -170));
    }
    for step in 1..=21 {
        records.push(obs(&format!("good-{step}"), "f-1", 300 + step * 30, -200));
    }

    let export = reference_from_records(&records).expect("valid fixture");
    let closed = export.freezers[0].incidents[0]
        .closed
        .as_ref()
        .expect("closed incident");
    assert_eq!(closed.at, 930);
    assert_eq!(closed.trigger_observation_id, "good-21");
    assert_eq!(closed.contributing_observation_ids.len(), 21);
    let json = serde_json::to_vec(&export_value(&export)).expect("an export is valid JSON");
    let bytes = terminated(json.clone());
    assert_eq!(bytes.last(), Some(&b'\n'));
    assert_eq!(bytes[..bytes.len() - 1], json);
    assert!(bytes.starts_with(b"{\"freezers\":[{"));
}

#[test]
fn correction_and_backdated_configuration_repair_only_affected_freezer() {
    let mut before = vec![
        config("cfg-a", "f-1", 0, -220, -180),
        config("cfg-b", "f-2", 0, -220, -180),
    ];
    for step in 0..=10 {
        before.push(obs(&format!("a-{step}"), "f-1", step * 30, -170));
        before.push(obs(&format!("b-{step}"), "f-2", step * 30, -170));
    }
    let original = reference_from_records(&before).unwrap();

    let mut after = before.clone();
    let mut correction = obs("a-fix", "f-1", 150, -200);
    let Record::Observation(ref mut corrected) = correction else {
        unreachable!()
    };
    corrected.replaces_observation_id = Some("a-5".into());
    corrected.received_at = 150 + 7 * 86_400;
    after.push(correction);
    after.push(config("cfg-a-maint", "f-1", 240, -220, -160));

    let repaired = reference_from_records(&after).unwrap();
    assert_ne!(original.freezers[0], repaired.freezers[0]);
    assert_eq!(original.freezers[1], repaired.freezers[1]);
}

#[test]
fn duplicates_are_idempotent_and_candidate_matches_reference() {
    let records = vec![
        config("cfg-a", "f-1", 0, -220, -180),
        obs("o-1", "f-1", 0, -200),
        obs("o-2", "f-1", 30, -170),
    ];
    let mut repeated = records.clone();
    repeated.extend(records.clone());

    let reference = reference_from_records(&records).unwrap();
    assert_eq!(reference, reference_from_records(&repeated).unwrap());

    let candidate = candidate_from_records(&repeated, distinct(&repeated)).unwrap();
    assert_eq!(candidate, reference);
}

#[test]
fn invalid_records_are_rejected_as_a_batch() {
    let unknown_correction = Record::Observation(Observation {
        observation_id: "fix".into(),
        freezer_id: "f-1".into(),
        observed_at: 10,
        received_at: 20,
        temp_tenths: -200,
        gateway_sequence: 2,
        replaces_observation_id: Some("missing".into()),
    });
    let invalid = vec![config("cfg-a", "f-1", 0, -220, -180), unknown_correction];
    let error = reference_from_records(&invalid).unwrap_err().message().to_string();
    assert!(error.contains("unknown correction target"));

    let no_band = vec![
        config("bad-band", "f-1", 0, -180, -220),
        obs("o", "f-1", 1, -200),
    ];
    assert!(
        reference_from_records(&no_band)
            .unwrap_err()
            .message()
            .contains("invalid temperature band")
    );
}

#[test]
fn one_hundred_seeds_match_across_order_and_repeated_batches() {
    for seed in 0..100_u64 {
        let chronological = generated_fixture(seed, 3, 96);
        let expected = reference_from_records(&chronological).unwrap();

        let shuffled_records = shuffled(&chronological, seed ^ 0x5eed_5eed);
        assert_eq!(
            candidate_from_records(&shuffled_records, distinct(&shuffled_records)).unwrap(),
            expected,
            "shuffled seed {seed}"
        );

        let mut repeated = shuffled_records.clone();
        repeated.extend(shuffled_records.iter().take(37).cloned());
        assert_eq!(
            candidate_from_records(&repeated, distinct(&repeated)).unwrap(),
            expected,
            "repeated seed {seed}"
        );
    }

}

#[test]
fn wire_timestamps_must_be_integers() {
    let whole = WireRecord::Observation {
        observed_at: Some(1),
        received_at: Some(2),
    };
    assert!(validate_wire_timestamps(&whole, 1).is_ok());
    assert!(validate_wire_timestamps(&WireRecord::Other, 1).is_ok());
    let message = |record: &WireRecord, line: usize| {
        validate_wire_timestamps(record, line)
            .expect_err("a timestamp is missing")
            .message()
            .to_owned()
    };
    let both = WireRecord::Observation {
        observed_at: None,
        received_at: None,
    };
    assert_eq!(
        message(&both, 12),
        "line 12: observed_at must be an integer timestamp"
    );
    let second = WireRecord::Observation {
        observed_at: Some(i64::MIN),
        received_at: None,
    };
    assert_eq!(
        message(&second, 1),
        "line 1: received_at must be an integer timestamp"
    );
    let configuration = WireRecord::Configuration { effective_at: None };
    assert_eq!(
        message(&configuration, 7),
        "line 7: effective_at must be an integer timestamp"
    );
}

#[test]
fn incidents_last_ten_minutes_and_stand_five_apart() {
    let export = reference_from_records(&generated_fixture(3, 4, 200)).expect("valid fixture");
    for freezer in &export.freezers {
        for incident in &freezer.incidents {
            if let Some(closed) = &incident.closed {
                assert!(closed.at - incident.opened.at >= 600);
            }
        }
        for pair in freezer.incidents.windows(2) {
            let closed = pair[0].closed.as_ref().expect("only the last is open");
            assert!(pair[1].opened.at - closed.at >= 300);
        }
    }
}

#[test]
fn ndjson_round_trip_and_malformed_timestamp_error_name_the_line() {
    let records = generated_fixture(5, 2, 32);
    let lines: Vec<String> = records
        .iter()
        .map(|record| record_value(record).to_string())
        .collect();
    let mut read: Vec<Record> = Vec::new();
    for (index, line) in lines.iter().enumerate() {
        assert!(check_line(line, index + 1).is_ok());
        let value: Value = serde_json::from_str(line).expect("valid JSON");
        read.push(record_of(&value));
    }
    assert_eq!(read, records);

    let malformed = r#"{"observation":{"observation_id":"o","freezer_id":"f","observed_at":"yesterday","received_at":1,"temp_tenths":-200,"gateway_sequence":1,"replaces_observation_id":null}}"#;
    let error = check_line(malformed, 1).unwrap_err().message().to_string();
    assert!(error.contains("line 1"));
    assert!(error.contains("observed_at"));
    assert_eq!(error, "line 1: observed_at must be an integer timestamp");
}

#[test]
fn archive_lines_are_refused_with_their_number() {
    let message = |line: &str, number: usize| {
        check_line(line, number)
            .expect_err("the line is refused")
            .message()
            .to_string()
    };
    assert_eq!(
        message("", 3),
        "line 3: EOF while parsing a value at line 1 column 0"
    );
    assert!(message("{\"observation\":", 12).starts_with("line 12: EOF while parsing"));
    assert_eq!(
        message("{\"observation\":{\"observed_at\":1,\"received_at\":2.5}}", 4),
        "line 4: received_at must be an integer timestamp"
    );
    assert_eq!(
        message("{\"configuration\":{\"effective_at\":9223372036854775808}}", 5),
        "line 5: effective_at must be an integer timestamp"
    );
    assert_eq!(
        message("{\"configuration\":[1]}", 6),
        "line 6: effective_at must be an integer timestamp"
    );
    assert_eq!(
        message(
            "{\"configuration\":{\"effective_at\":1},\"observation\":{}}",
            7
        ),
        "line 7: observed_at must be an integer timestamp"
    );
    for accepted in [
        "{\"observation\":{\"observed_at\":-9223372036854775808,\"received_at\":0}}",
        "{\"configuration\":{\"effective_at\":9223372036854775807}}",
        "{\"other\":true}",
        "[]",
        "7",
    ] {
        assert!(check_line(accepted, 1).is_ok());
    }
}
