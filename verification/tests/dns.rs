use std::collections::BTreeMap;

use workshop::dns::changes::compare_records;
use workshop::dns::findings::{is_at_or_below, soa_serial, Verdict};
use workshop::dns::fixture::{check_scale, policy_text, zone_file_name, zone_text, Scale};
use workshop::dns::parser::ZoneParser;
use workshop::dns::path::{
    check_output, check_resolved, lexical_path, OutputRefusal, Part, Refusal,
};
use workshop::dns::policy::{parse_policy, Policy, ZonePolicy};
use workshop::dns::problem::GateError;
use workshop::dns::publication::{attempts_exhausted, injected_exit, temporary_name, Step};
use workshop::dns::report::{compare_zone, Report, ZoneData};
use workshop::dns::table::RecordTable;
use workshop::dns::zone::Defaults;

/// The files of a snapshot, by their names.
type Files = BTreeMap<String, String>;

struct Case {
    old: Files,
    new: Files,
    policy: String,
}

fn parts(path: &str) -> Vec<Part> {
    let mut found = Vec::new();
    if path.starts_with('/') {
        found.push(Part::Rooted);
    }
    for name in path.split('/').filter(|name| !name.is_empty()) {
        found.push(match name {
            "." => Part::Current,
            ".." => Part::Parent,
            _ => Part::Normal(name.to_string()),
        });
    }
    found
}

fn names(path: &str) -> Vec<String> {
    path.split('/')
        .filter(|name| !name.is_empty())
        .map(str::to_string)
        .collect()
}

fn locate(base: &str, requested: &str) -> Result<String, GateError> {
    let refuse =
        |refusal: Refusal| GateError::new(refusal.code(), requested, 0, refusal.detail());
    let root = names("snapshot");
    let reached = lexical_path(&root, &names(base), &parts(requested)).map_err(refuse)?;
    check_resolved(&root, &reached, true).map_err(refuse)?;
    Ok(reached.join("/"))
}

fn read(files: &Files, path: &str) -> Result<Vec<u8>, GateError> {
    let name = path.trim_start_matches("snapshot/");
    files
        .get(name)
        .map(|text| text.clone().into_bytes())
        .ok_or_else(|| GateError::new("E_INCLUDE_MISSING", path, 0, "cannot read zone file"))
}

fn parse_zone(
    files: &Files,
    selected: &ZonePolicy,
    policy: &Policy,
    total: &mut usize,
) -> Result<ZoneData, GateError> {
    let mut parser = ZoneParser::new(policy.limits.clone(), *total);
    let mut base = "snapshot".to_string();
    let mut requested = selected.relative_path.clone();
    let mut defaults = Defaults {
        origin: selected.zone.clone(),
        owner: None,
        ttl: None,
    };
    loop {
        parser.check_depth(&requested)?;
        let path = locate(&base, &requested)?;
        parser.note_file(&path)?;
        parser.open(&path, &read(files, &path)?, defaults)?;
        match parser.advance()? {
            Some(request) => {
                base = match request.including.rfind('/') {
                    Some(at) => request.including[..at].to_string(),
                    None => String::new(),
                };
                requested = request.requested;
                defaults = request.defaults;
            }
            None => break,
        }
    }
    *total = parser.counted.total;
    Ok(ZoneData {
        records: parser.counted.records,
        input_paths: parser.input_paths,
    })
}

impl Case {
    fn new(old: &str, new: &str) -> Self {
        let zone = |text: &str| Files::from([("example.zone".to_string(), text.to_string())]);
        Case {
            old: zone(old),
            new: zone(new),
            policy: [
                "max_records_total=2500000\n",
                "max_records_per_zone=250000\n",
                "max_include_depth=32\n",
                "max_generate_records=100000\n",
                "ttl_decrease_percent=50\n",
                "zone=example.test.|example.zone|PASS|PASS\n",
            ]
            .join(""),
        }
    }

    fn with_policy(mut self, policy: &str) -> Self {
        self.policy = policy.to_string();
        self
    }

    fn run(&self) -> Result<(i32, String), GateError> {
        let policy = parse_policy("policy.conf", &self.policy)?;
        let mut old_total = 0;
        let mut new_total = 0;
        let mut zones = Vec::new();
        for selected in &policy.zones {
            let old = parse_zone(&self.old, selected, &policy, &mut old_total)?;
            let new = parse_zone(&self.new, selected, &policy, &mut new_total)?;
            zones.push(compare_zone(selected, &old, &new, &policy.limits));
        }
        let report = Report::new(zones);
        Ok((if report.is_blocked() { 2 } else { 0 }, report.to_json()))
    }

    fn refusal(&self) -> GateError {
        match self.run() {
            Ok((_, report)) => panic!("{report}"),
            Err(error) => error,
        }
    }
}

const OLD: &str = r#"$ORIGIN example.test.
$TTL 1h
@ IN SOA ns1 hostmaster ( 4294967295 1h 15m 1w 5m )
@ IN NS ns1
ns1 IN A 192.0.2.1
www 300 IN A 192.0.2.10
child IN NS ns.child
ns.child IN A 192.0.2.53
mail IN MX 10 mx
mx IN AAAA 2001:db8::1
text IN TXT "one" "two"
"#;

const NEW: &str = r#"$TTL 3600
$ORIGIN example.test.
text IN TXT "one" "two"
@ IN SOA ns1.example.test. hostmaster.example.test. ( 0 3600 900 604800 300 )
@ NS ns1
ns1 A 192.0.2.1
www 5m A 192.0.2.11
child NS ns.child
ns.child A 192.0.2.53
mail MX 10 mx
mx AAAA 2001:db8:0:0:0:0:0:1
"#;

fn minimal_zone(serial: u32, extra: &str) -> String {
    format!(
        "$ORIGIN example.test.\n$TTL 1h\n@ SOA ns hostmaster {serial} 1h 15m 1w 5m\n@ NS ns\nns A 192.0.2.1\n{extra}"
    )
}

#[test]
fn valid_change_report_is_canonical_and_deterministic() {
    let case = Case::new(OLD, NEW);
    let (status, report) = case.run().unwrap();
    assert_eq!(status, 0);
    assert!(report.ends_with('\n'));
    assert!(report.contains("\"overall_verdict\":\"allow\""));
    assert!(
        report.contains("\"owner\":\"www.example.test.\",\"type\":\"A\",\"rdata\":\"192.0.2.10\"")
    );
    assert!(
        report.contains("\"owner\":\"www.example.test.\",\"type\":\"A\",\"rdata\":\"192.0.2.11\"")
    );
    assert!(report.contains("\"code\":\"SOA_ADVANCE\""));
    assert!(
        !report.contains("TTL_DECREASE"),
        "300 to 300 is not a TTL change"
    );
    assert_eq!(case.run().unwrap(), (0, report));
}

#[test]
fn reorder_duplicates_omitted_owners_and_escaped_labels_have_no_change() {
    let old = "$ORIGIN example.test.\n$TTL 1h\n\
        @ SOA ns hostmaster 7 1h 15m 1w 5m\n\
        @ NS ns\nns A 192.0.2.1\n\
        odd\\046label A 192.0.2.2\n\u{20} AAAA 2001:db8::2\n\
        txt TXT \"a\" \"b\"\n";
    let new = "$TTL 3600\n$ORIGIN example.test.\n\
        txt TXT \"a\" \"b\"\n\
        odd\\046label AAAA 2001:db8:0:0:0:0:0:2\n\
        odd\\046label A 192.0.2.2\n\
        odd\\046label A 192.0.2.2 ; exact duplicate\n\
        @ NS ns.example.test.\n\
        ns A 192.0.2.1\n\
        @ SOA ns.example.test. hostmaster.example.test. 7 3600 900 604800 300\n";
    let (status, report) = Case::new(old, new).run().unwrap();
    assert_eq!(status, 0);
    assert!(report.contains("\"changes\":[]"));
    assert!(!report.contains("SOA_EQUAL"));
}

#[test]
fn semantic_blocks_and_reviews_are_reported_with_exact_evidence() {
    let cases = [
        (
            "@ SOA ns hostmaster 8 1h 15m 1w 5m\n@ NS ns\nns A 192.0.2.1\nbad CNAME target\nbad MX 10 mail\n",
            "CNAME_COEXISTENCE",
            "bad.example.test.",
        ),
        (
            "@ SOA ns hostmaster 8 1h 15m 1w 5m\nns A 192.0.2.1\n",
            "APEX_NS_MISSING",
            "example.test.",
        ),
        (
            "@ SOA ns hostmaster 8 1h 15m 1w 5m\n@ NS ns\nns A 192.0.2.1\nchild NS ns.child\n",
            "REMOVED_LAST_GLUE",
            "child.example.test.",
        ),
    ];
    for (new_body, code, owner) in cases {
        let new = format!("$ORIGIN example.test.\n$TTL 1h\n{new_body}");
        let (status, report) = Case::new(OLD, &new).run().unwrap();
        assert_eq!(status, 2, "{code}");
        assert!(
            report.contains(&format!("\"code\":\"{code}\"")),
            "{report}"
        );
        assert!(report.contains(owner), "{report}");
    }

    let (status, report) = Case::new(
        &minimal_zone(1, "child NS ns.external.test.\n"),
        &minimal_zone(2_147_483_649, "child NS ns.external.test.\n"),
    )
    .run()
    .unwrap();
    assert_eq!(status, 0);
    assert!(report.contains("\"overall_verdict\":\"review\""));
    assert!(report.contains("SOA_HALF_RANGE_AMBIGUOUS"));
    assert!(report.contains("OUT_OF_BAILIWICK_NO_GLUE"));
}

#[test]
fn soa_serial_boundaries_match_literal_oracle() {
    let oracle = [
        (10, 11, "SOA_ADVANCE", 0),
        (u32::MAX, 0, "SOA_ADVANCE", 0),
        (10, 10, "SOA_EQUAL", 2),
        (10, 9, "SOA_REGRESSION", 2),
        (0, 1_u32 << 31, "SOA_HALF_RANGE_AMBIGUOUS", 0),
    ];
    for (old_serial, new_serial, code, status) in oracle {
        let (found, report) = Case::new(
            &minimal_zone(old_serial, "www A 192.0.2.1\n"),
            &minimal_zone(new_serial, "www A 192.0.2.2\n"),
        )
        .run()
        .unwrap();
        assert_eq!(found, status, "{code}");
        assert!(report.contains(&format!("\"code\":\"{code}\"")), "{report}");
    }
}

#[test]
fn parser_and_containment_failures_preserve_previous_report() {
    let malformed = [
        (
            "@ SOA ns hostmaster ( 2 1h 15m 1w 5m\n",
            "E_UNTERMINATED_PAREN",
        ),
        (
            "@ SOA ns hostmaster 2 1h 15m 1w 5m\n@ NS ns\nns A 999.2.3.4\n",
            "E_RDATA",
        ),
        (
            "@ SOA ns hostmaster 2 1h 15m 1w 5m\n@ NS ns\nns CHAOS A 192.0.2.1\n",
            "E_FIELD",
        ),
        (
            "@ SOA ns hostmaster 4294967296 1h 15m 1w 5m\n@ NS ns\nns A 192.0.2.1\n",
            "E_INTEGER_WIDTH",
        ),
    ];
    for (body, code) in malformed {
        let new = format!("$ORIGIN example.test.\n$TTL 1h\n{body}");
        let error = Case::new(OLD, &new).refusal();
        assert_eq!(error.code, code);
        assert_eq!(error.path, "snapshot/example.zone");
    }

    let include_cases = [
        ("$INCLUDE ../sentinel\n", "E_INCLUDE_ESCAPE"),
        ("$INCLUDE /etc/passwd\n", "E_INCLUDE_ABSOLUTE"),
        ("$INCLUDE absent.zone\n", "E_INCLUDE_MISSING"),
        ("$INCLUDE example.zone\n", "E_INCLUDE_CYCLE"),
    ];
    for (directive, code) in include_cases {
        assert_eq!(Case::new(OLD, directive).refusal().code, code);
    }
}

#[test]
fn generate_and_nested_include_limits_block_without_truncation() {
    let case = Case::new(
        OLD,
        "$ORIGIN example.test.\n$TTL 1h\n$GENERATE 1-4 host$ A 192.0.2.1\n",
    )
    .with_policy(
        "max_records_total=20\nmax_records_per_zone=10\nmax_include_depth=2\n\
         max_generate_records=3\nttl_decrease_percent=50\n\
         zone=example.test.|example.zone|PASS|PASS\n",
    );
    assert_eq!(case.refusal().code, "E_GENERATE_LIMIT");

    let mut case = Case::new(
        "",
        "$ORIGIN example.test.\n$TTL 1h\n$INCLUDE one.inc\n",
    )
    .with_policy(
        "max_records_total=100\nmax_records_per_zone=2\nmax_include_depth=3\n\
         max_generate_records=10\nttl_decrease_percent=50\n\
         zone=example.test.|example.zone|PASS|PASS\n",
    );
    case.new.insert(
        "one.inc".to_string(),
        "$INCLUDE two.inc\na A 192.0.2.1\n".to_string(),
    );
    case.new.insert(
        "two.inc".to_string(),
        "b A 192.0.2.2\nc A 192.0.2.3\n".to_string(),
    );
    assert_eq!(case.refusal().code, "E_ZONE_LIMIT");
}

#[test]
fn include_depth_limit_blocks_before_deeper_file_is_parsed() {
    let mut case = Case::new(
        OLD,
        "$ORIGIN example.test.\n$TTL 1h\n$INCLUDE one.inc\n",
    )
    .with_policy(
        "max_records_total=100\nmax_records_per_zone=100\nmax_include_depth=2\n\
         max_generate_records=10\nttl_decrease_percent=50\n\
         zone=example.test.|example.zone|PASS|PASS\n",
    );
    for (name, text) in [
        ("one.inc", "$INCLUDE two.inc\n"),
        ("two.inc", "$INCLUDE three.inc\n"),
        ("three.inc", "bomb A 999.999.999.999\n"),
    ] {
        case.new.insert(name.to_string(), text.to_string());
    }
    let error = case.refusal();
    assert_eq!(error.code, "E_INCLUDE_DEPTH");
    assert_eq!(error.detail, "include depth exceeds 2");
}

#[test]
fn baseline_failure_can_never_become_allow() {
    let case = Case::new(OLD, NEW).with_policy(
        "max_records_total=2500000\nmax_records_per_zone=250000\nmax_include_depth=32\n\
         max_generate_records=100000\nttl_decrease_percent=50\n\
         zone=example.test.|example.zone|OLD_OK|NEW_NAMED_CHECKZONE_FAIL\n",
    );
    let (status, report) = case.run().unwrap();
    assert_eq!(status, 2);
    assert!(report.contains("BASELINE_FAILURE"));
    assert!(report.contains("OLD_OK"));
    assert!(report.contains("NEW_NAMED_CHECKZONE_FAIL"));
}

#[test]
fn include_inherits_ttl_optional_origin_and_generate_expands_declared_subset() {
    let root_zone = "$ORIGIN example.test.\n$TTL 1h\n\
        @ SOA ns hostmaster 10 1h 15m 1w 5m\n@ NS ns\nns A 192.0.2.1\n\
        $INCLUDE records.inc delegated.example.test.\n\
        $GENERATE 1-3 host$ 5m A 192.0.2.9\n";
    let old_include = "@ NS ns\nns A 192.0.2.53\n\
        service SRV 10 20 443 target.example.test.\n\
        policy CAA 0 issue \"ca.example\"\n\
        key DS 12345 13 2 AABBCCDD\n\
        alias CNAME target.example.test.\n\
        target AAAA 2001:db8::9\n";
    let new_include = "@ NS ns\nns A 192.0.2.53\n\
        service SRV 10 20 8443 target.example.test.\n\
        policy CAA 0 issue \"new-ca.example\"\n\
        key DS 12345 13 2 EEFF0011\n\
        alias CNAME new-target.example.test.\n\
        target AAAA 2001:db8::10\n";
    let mut case = Case::new(
        root_zone,
        &root_zone
            .replace(" 10 ", " 11 ")
            .replace("192.0.2.9", "192.0.2.10"),
    );
    case.old
        .insert("records.inc".to_string(), old_include.to_string());
    case.new
        .insert("records.inc".to_string(), new_include.to_string());
    let (status, report) = case.run().unwrap();
    assert_eq!(status, 0);
    assert!(report.contains("\"owner\":\"host3.example.test.\""));
    assert!(report.contains("\"type\":\"SRV\""));
    assert!(report.contains("\"type\":\"CAA\""));
    assert!(report.contains("\"type\":\"DS\""));
}

#[test]
fn maximal_and_stepped_generate_ranges_fail_bounded_without_replacing_report() {
    for directive in [
        "$GENERATE 0-4294967295 host$ A 192.0.2.1\n",
        "$GENERATE 0-4294967295/4294967295 host$ A 192.0.2.1\n",
    ] {
        let new = format!("$ORIGIN example.test.\n$TTL 1h\n{directive}");
        let case = Case::new(OLD, &new).with_policy(
            "max_records_total=100\nmax_records_per_zone=100\nmax_include_depth=3\n\
             max_generate_records=1\nttl_decrease_percent=50\n\
             zone=example.test.|example.zone|PASS|PASS\n",
        );
        assert_eq!(case.refusal().code, "E_GENERATE_LIMIT");
    }
}

#[test]
fn escaped_label_wire_length_uses_decoded_octets_and_has_exact_oracle() {
    let old_label = "\\001".repeat(63);
    let new_label = "\\002".repeat(63);
    let (status, report) = Case::new(
        &minimal_zone(10, &format!("{old_label} A 192.0.2.9\n")),
        &minimal_zone(11, &format!("{new_label} A 192.0.2.10\n")),
    )
    .run()
    .unwrap();
    assert_eq!(status, 0);
    let canonical_owner = format!("{}.example.test.", "\\\\002".repeat(63));
    let old_canonical_owner = format!("{}.example.test.", "\\\\001".repeat(63));
    assert!(
        report.contains(&format!(
            "\"kind\":\"addition\",\"owner\":\"{canonical_owner}\",\"type\":\"A\",\"rdata\":\"192.0.2.10\""
        )),
        "{report}"
    );
    assert!(
        report.contains(&format!(
            "\"kind\":\"removal\",\"owner\":\"{old_canonical_owner}\",\"type\":\"A\",\"rdata\":\"192.0.2.9\""
        )),
        "{report}"
    );
}

#[test]
fn ttl_glue_family_and_missing_soa_boundaries_match_policy() {
    let (status, report) = Case::new(
        &minimal_zone(10, "www 1000 A 192.0.2.10\n"),
        &minimal_zone(11, "www 400 A 192.0.2.10\n"),
    )
    .run()
    .unwrap();
    assert_eq!(status, 2);
    assert!(report.contains("TTL_DECREASE"));
    assert!(report.contains("from 1000 to 400"));

    let (status, report) = Case::new(
        &minimal_zone(
            10,
            "child NS ns.child\nns.child A 192.0.2.53\nns.child AAAA 2001:db8::53\n",
        ),
        &minimal_zone(11, "child NS ns.child\nns.child AAAA 2001:db8::53\n"),
    )
    .run()
    .unwrap();
    assert_eq!(status, 0);
    assert!(report.contains("GLUE_FAMILY_CHANGE"));
    assert!(!report.contains("REMOVED_LAST_GLUE"));

    let (status, report) = Case::new(
        &minimal_zone(10, ""),
        "$ORIGIN example.test.\n$TTL 1h\n@ NS ns\nns A 192.0.2.1\n",
    )
    .run()
    .unwrap();
    assert_eq!(status, 2);
    assert!(report.contains("APEX_SOA_COUNT"));
}

#[test]
fn overlong_escaped_label_and_total_limit_fail_closed() {
    let label = "\\097".repeat(64);
    let new = format!(
        "$ORIGIN example.test.\n$TTL 1h\n@ SOA ns hostmaster 2 1h 15m 1w 5m\n@ NS ns\nns A 192.0.2.1\n{label} A 192.0.2.2\n"
    );
    assert_eq!(Case::new(OLD, &new).refusal().code, "E_LABEL_LENGTH");

    let case = Case::new(&minimal_zone(1, ""), &minimal_zone(2, "")).with_policy(
        "max_records_total=2\nmax_records_per_zone=10\nmax_include_depth=3\n\
         max_generate_records=10\nttl_decrease_percent=50\n\
         zone=example.test.|example.zone|PASS|PASS\n",
    );
    assert_eq!(case.refusal().code, "E_TOTAL_LIMIT");
}

fn permute<const N: usize>(values: &mut [&str; N], mut state: u64) {
    for index in (1..N).rev() {
        state = state
            .wrapping_mul(6_364_136_223_846_793_005)
            .wrapping_add(1);
        let other = usize::try_from(state % u64::try_from(index + 1).expect("index width"))
            .expect("position width");
        values.swap(index, other);
    }
}

#[test]
fn twenty_seeded_record_permutations_are_byte_identical() {
    let fixed = [
        "@ NS ns",
        "ns A 192.0.2.1",
        "a A 192.0.2.10",
        "b AAAA 2001:db8::20",
        "c MX 10 mail",
        "mail A 192.0.2.30",
        "d TXT \"left\" \"right\"",
        "e CAA 0 issue \"ca.example\"",
    ];
    let mut expected: Option<String> = None;
    for seed in 0..20_u64 {
        let mut old_lines = fixed;
        let mut new_lines = fixed;
        permute(&mut old_lines, seed.wrapping_mul(17).wrapping_add(3));
        permute(&mut new_lines, seed.wrapping_mul(31).wrapping_add(9));
        let old = format!(
            "$ORIGIN example.test.\n$TTL 1h\n@ SOA ns hostmaster 10 1h 15m 1w 5m\n{}\n",
            old_lines.join("\n")
        );
        let new = format!(
            "$TTL 3600\n$ORIGIN example.test.\n@ SOA ns hostmaster 11 3600 900 604800 300\n{}\n",
            new_lines.join("\n")
        );
        let (status, report) = Case::new(&old, &new).run().unwrap();
        assert_eq!(status, 0, "seed {seed}");
        if let Some(expected) = &expected {
            assert_eq!(&report, expected, "seed {seed}");
        } else {
            expected = Some(report);
        }
    }
}

#[test]
fn total_expansion_limit_is_applied_independently_to_each_snapshot() {
    let case = Case::new(&minimal_zone(1, ""), &minimal_zone(1, "")).with_policy(
        "max_records_total=3\nmax_records_per_zone=3\nmax_include_depth=3\n\
         max_generate_records=10\nttl_decrease_percent=50\n\
         zone=example.test.|example.zone|PASS|PASS\n",
    );
    assert_eq!(case.run().unwrap().0, 0);
}

#[test]
fn faulty_policies_are_refused_with_their_line() {
    let limits = "max_records_total=1\nmax_records_per_zone=1\nmax_include_depth=1\nmax_generate_records=1\n";
    let refused = |text: &str| {
        let error = parse_policy("p.conf", text).unwrap_err();
        assert_eq!(error.code, "E_POLICY");
        assert_eq!(error.path, "p.conf");
        (error.offset, error.detail)
    };
    assert_eq!(refused("# note\n\nnonsense\n"), (2, "expected key=value".to_string()));
    assert_eq!(
        refused("zone=a.|b|c\n"),
        (
            0,
            "zone requires absolute-zone|relative-file|old-baseline|new-baseline".to_string()
        )
    );
    assert_eq!(refused("zone=a|b|c|d\n"), (0, "zone must be absolute".to_string()));
    assert_eq!(refused("a=1\na=2\n"), (1, "duplicate key a".to_string()));
    assert_eq!(
        refused("zone=A.|b|c|d\nzone=a.|e|f|g\n"),
        (0, "duplicate zone a.".to_string())
    );
    assert_eq!(refused(limits), (0, "at least one zone is required".to_string()));
    let zone = "zone=a.|b|c|d\n";
    assert_eq!(
        refused(&format!("{limits}{zone}")),
        (0, "missing ttl_decrease_percent".to_string())
    );
    assert_eq!(
        refused(&format!("{limits}{zone}ttl_decrease_percent=x\n")),
        (0, "invalid ttl_decrease_percent".to_string())
    );
    assert_eq!(
        refused(&format!("{limits}{zone}ttl_decrease_percent=101\n")),
        (0, "ttl_decrease_percent exceeds 100".to_string())
    );
    let zero = limits.replace("max_include_depth=1", "max_include_depth=0");
    assert_eq!(
        refused(&format!("{zero}{zone}ttl_decrease_percent=1\n")),
        (0, "all limits must be positive".to_string())
    );
    let policy = parse_policy("p.conf", &format!("{limits} zone=B.|b|c|d\u{a0}\r\n{zone}ttl_decrease_percent=1\n")).unwrap();
    assert_eq!(policy.zones.len(), 2);
    assert_eq!(policy.zones[0].zone, "a.");
    assert_eq!(policy.zones[1].zone, "b.");
    assert_eq!(policy.zones[1].new_baseline, "d");
}

#[test]
fn changes_between_snapshots_can_be_reversed() {
    let policy = parse_policy("p", &Case::new("", "").policy).unwrap();
    let table = |text: &str| -> RecordTable {
        let files = Files::from([("example.zone".to_string(), text.to_string())]);
        parse_zone(&files, &policy.zones[0], &policy, &mut 0)
            .unwrap()
            .records
    };
    let old = table(OLD);
    let new = table(NEW);
    assert!(compare_records(&old, &old).is_empty());
    assert_eq!(
        compare_records(&old, &new).len(),
        compare_records(&new, &old).len()
    );
    assert_eq!(soa_serial(&old, "example.test."), Some(u32::MAX));
    assert_eq!(soa_serial(&new, "example.test."), Some(0));
    assert_eq!(soa_serial(&new, "www.example.test."), None);
    assert!(is_at_or_below("a.example.test.", "example.test."));
    assert!(is_at_or_below("example.test.", "example.test."));
    assert!(!is_at_or_below("badexample.test.", "example.test."));
}

#[test]
fn a_report_is_as_grave_as_its_gravest_zone() {
    let policy = parse_policy(
        "p",
        "max_records_total=100\nmax_records_per_zone=100\nmax_include_depth=3\n\
         max_generate_records=10\nttl_decrease_percent=50\n\
         zone=example.test.|example.zone|PASS|FAIL\n",
    )
    .unwrap();
    let files = Files::from([("example.zone".to_string(), minimal_zone(1, ""))]);
    let data = parse_zone(&files, &policy.zones[0], &policy, &mut 0).unwrap();
    let zone = compare_zone(&policy.zones[0], &data, &data, &policy.limits);
    assert_eq!(zone.verdict, Verdict::Block);
    let report = Report::new(vec![zone]);
    assert!(report.is_blocked());
    assert_eq!(report.overall, Verdict::Block);
    assert!(!Report::new(vec![]).is_blocked());
}

#[test]
fn generated_corpus_runs_through_gate_with_declared_shape() {
    let scale = Scale {
        zones: 12,
        records_per_zone: 24,
        changed_zones: 3,
    };
    assert_eq!(check_scale(&scale), Ok(288));
    let snapshot = |changed_zones: usize| -> Files {
        (0..scale.zones)
            .map(|index| {
                let text = zone_text(index, scale.records_per_zone, index < changed_zones);
                (zone_file_name(index), text)
            })
            .collect()
    };
    let case = Case {
        old: snapshot(0),
        new: snapshot(scale.changed_zones),
        policy: policy_text(&scale),
    };
    let (status, body) = case.run().unwrap();
    assert_eq!(status, 0);
    assert!(body.contains("zone00000.example."));
    assert!(body.contains("zone00011.example."));
    assert_eq!(body.matches("\"zone\":").count(), 12);
    assert_eq!(body.matches("SOA_ADVANCE").count(), 3);
    assert_eq!(body.matches("\"kind\":\"addition\"").count(), 66);
    assert_eq!(body.matches("\"kind\":\"removal\"").count(), 66);
}

#[test]
fn generated_files_have_their_text() {
    assert_eq!(
        zone_text(251, 4, false),
        [
            "$ORIGIN zone00251.example.\n$TTL 3600\n",
            "@ SOA ns hostmaster 1 3600 900 604800 300\n@ NS ns\nns A 192.0.2.1\n",
            "host000000 A 10.1.0.1\n",
        ]
        .join("")
    );
    assert!(zone_text(251, 254, true).ends_with("host000250 A 198.19.1.1\n"));
    let scale = Scale {
        zones: 1,
        records_per_zone: 3,
        changed_zones: 0,
    };
    assert_eq!(
        policy_text(&scale),
        [
            "max_records_total=3\nmax_records_per_zone=3\nmax_include_depth=32\n",
            "max_generate_records=100000\nttl_decrease_percent=50\n",
            "zone=zone00000.example.|zone00000.zone|PASS|PASS\n",
        ]
        .join("")
    );
}

#[test]
fn scales_out_of_range_are_refused() {
    let refused = |zones: usize, records_per_zone: usize, changed_zones: usize| {
        check_scale(&Scale {
            zones,
            records_per_zone,
            changed_zones,
        })
        .unwrap_err()
    };
    assert_eq!(refused(0, 3, 0), "--zones must be in 1..=10000");
    assert_eq!(refused(10_001, 3, 0), "--zones must be in 1..=10000");
    assert_eq!(
        refused(1, 2, 0),
        "--records-per-zone must be in 3..=250000"
    );
    assert_eq!(refused(1, 3, 2), "--changed-zones cannot exceed --zones");
}

#[test]
fn reports_are_written_outside_the_snapshots() {
    let check = |directory: &str, file_name: &str, existing: Option<&str>| {
        check_output(
            &names("data/old"),
            &names("data/new"),
            &names("data/policy.conf"),
            &names(directory),
            file_name,
            &existing.map(names),
        )
    };
    assert_eq!(check("data", "report.json", None), None);
    assert_eq!(check("data", "report.json", Some("data/elsewhere")), None);
    assert_eq!(
        check("data/old/deep", "report.json", None),
        Some(OutputRefusal::InsideRoot)
    );
    assert_eq!(
        check("data/new", "report.json", None),
        Some(OutputRefusal::InsideRoot)
    );
    assert_eq!(
        check("data", "policy.conf", None),
        Some(OutputRefusal::ReplacesPolicy)
    );
    assert_eq!(
        check("data", "report.json", Some("data/old/example.zone")),
        Some(OutputRefusal::ResolvesInsideRoot)
    );
    assert_eq!(
        check("data", "report.json", Some("data/policy.conf")),
        Some(OutputRefusal::ResolvesToPolicy)
    );
    assert_eq!(
        OutputRefusal::InsideRoot.detail(),
        "output must be outside both immutable snapshot roots"
    );
}

#[test]
fn temporary_reports_are_named_by_process_nonce_and_attempt() {
    assert_eq!(
        temporary_name("out.json", 42, 0xab, 3, 5).as_deref(),
        Some(".out.json.tmp-42-000000000000000000000000000000ab-0000000000000003-005")
    );
    assert_eq!(
        temporary_name("o", 1, u128::MAX, u64::MAX, 127).as_deref(),
        Some(".o.tmp-1-ffffffffffffffffffffffffffffffff-ffffffffffffffff-127")
    );
    assert_eq!(temporary_name("o", 1, 0, 0, 128), None);
    assert_eq!(
        attempts_exhausted(),
        "could not create an exclusive temporary report after 128 attempts"
    );
}

#[test]
fn injected_faults_end_a_publication_at_their_step() {
    assert_eq!(injected_exit("after-temp", Step::TemporaryCreated), Some(86));
    assert_eq!(injected_exit("after-flush", Step::TemporaryFlushed), Some(87));
    assert_eq!(injected_exit("after-temp", Step::TemporaryFlushed), None);
    assert_eq!(injected_exit("", Step::TemporaryCreated), None);
}
