use workshop::firewall::analyze::{analyze, format_address};
use workshop::firewall::model::{
    diagnostics_for_errors, evaluate, region_contains, Action, ChangeKind, IpFamily, Packet,
    PolicyFile, Protocol, RuleInput, ValidatedPolicy,
};
use workshop::firewall::publication::{
    refused_pair, temporary_name, Progress, Stage, StepOutcome, WriteStage, Writing,
};
use workshop::firewall::samples::{replay_samples, SamplePacket};
use workshop::firewall::trial::validation_suite;
use workshop::firewall::validate::{parse_packet, validate_policy};
use workshop::firewall::verify::{parse_address_for_family, same_report, verify_report};
use workshop::firewall::workload::{canonical_start, generate_benchmark_pair};

fn rule(
    id: &str,
    action: Action,
    family: IpFamily,
    cidr: &str,
    protocol: Protocol,
    ports: (u16, u16),
) -> RuleInput {
    RuleInput {
        id: id.to_string(),
        action,
        ip_family: family,
        source_cidr: cidr.to_string(),
        protocol,
        port_start: ports.0,
        port_end: ports.1,
    }
}

fn policy(rules: Vec<RuleInput>) -> ValidatedPolicy {
    validate_policy(&PolicyFile { rules }, "test").unwrap()
}

fn packet(family: IpFamily, source: u128, protocol: Protocol, port: u16) -> Packet {
    Packet {
        family,
        source,
        protocol,
        destination_port: port,
    }
}

#[test]
fn hand_written_first_match_regressions() {
    let cases = vec![
        (
            "insertion before allow",
            policy(vec![rule(
                "allow-all",
                Action::Allow,
                IpFamily::Ipv4,
                "0.0.0.0/0",
                Protocol::Tcp,
                (0, 65535),
            )]),
            policy(vec![
                rule(
                    "inserted-deny",
                    Action::Deny,
                    IpFamily::Ipv4,
                    "10.0.0.0/8",
                    Protocol::Tcp,
                    (443, 443),
                ),
                rule(
                    "allow-all",
                    Action::Allow,
                    IpFamily::Ipv4,
                    "0.0.0.0/0",
                    Protocol::Tcp,
                    (0, 65535),
                ),
            ]),
            ChangeKind::NewlyDenied,
        ),
        (
            "deletion of deny",
            policy(vec![
                rule(
                    "deny",
                    Action::Deny,
                    IpFamily::Ipv4,
                    "10.0.0.0/8",
                    Protocol::Tcp,
                    (0, 1023),
                ),
                rule(
                    "allow",
                    Action::Allow,
                    IpFamily::Ipv4,
                    "0.0.0.0/0",
                    Protocol::Tcp,
                    (0, 65535),
                ),
            ]),
            policy(vec![rule(
                "allow",
                Action::Allow,
                IpFamily::Ipv4,
                "0.0.0.0/0",
                Protocol::Tcp,
                (0, 65535),
            )]),
            ChangeKind::NewlyAllowed,
        ),
        (
            "rule reordering",
            policy(vec![
                rule(
                    "allow-narrow",
                    Action::Allow,
                    IpFamily::Ipv4,
                    "10.2.0.0/16",
                    Protocol::Udp,
                    (50, 100),
                ),
                rule(
                    "deny-broad",
                    Action::Deny,
                    IpFamily::Ipv4,
                    "10.0.0.0/8",
                    Protocol::Udp,
                    (0, 200),
                ),
            ]),
            policy(vec![
                rule(
                    "deny-broad",
                    Action::Deny,
                    IpFamily::Ipv4,
                    "10.0.0.0/8",
                    Protocol::Udp,
                    (0, 200),
                ),
                rule(
                    "allow-narrow",
                    Action::Allow,
                    IpFamily::Ipv4,
                    "10.2.0.0/16",
                    Protocol::Udp,
                    (50, 100),
                ),
            ]),
            ChangeKind::NewlyDenied,
        ),
        (
            "partial CIDR and port overlap",
            policy(vec![rule(
                "allow-old",
                Action::Allow,
                IpFamily::Ipv4,
                "192.0.2.0/25",
                Protocol::Tcp,
                (100, 200),
            )]),
            policy(vec![rule(
                "allow-new",
                Action::Allow,
                IpFamily::Ipv4,
                "192.0.2.0/24",
                Protocol::Tcp,
                (150, 250),
            )]),
            ChangeKind::NewlyDenied,
        ),
        (
            "default deny transition",
            policy(vec![]),
            policy(vec![rule(
                "new-allow",
                Action::Allow,
                IpFamily::Ipv6,
                "2001:db8::/126",
                Protocol::Tcp,
                (8443, 8443),
            )]),
            ChangeKind::NewlyAllowed,
        ),
    ];

    for (name, old, proposed, expected_kind) in cases {
        let report = analyze(&old, &proposed);
        assert!(!report.changes.is_empty(), "{name}");
        assert!(
            report
                .changes
                .iter()
                .any(|change| change.kind == expected_kind),
            "{name}"
        );
        if name == "partial CIDR and port overlap" {
            assert_eq!(report.summary.outcome, "newly-allowed-and-newly-denied");
            assert!(
                report
                    .changes
                    .iter()
                    .any(|change| change.kind == ChangeKind::NewlyAllowed)
            );
        }
        verify_report(&old, &proposed, &report).unwrap();
    }
}

#[test]
fn shadowing_reachability_and_semantically_neutral_edits() {
    let old = policy(vec![
        rule(
            "broad",
            Action::Allow,
            IpFamily::Ipv4,
            "10.0.0.0/8",
            Protocol::Tcp,
            (0, 65535),
        ),
        rule(
            "same-shadow",
            Action::Allow,
            IpFamily::Ipv4,
            "10.1.0.0/16",
            Protocol::Tcp,
            (80, 80),
        ),
        rule(
            "opposite-shadow",
            Action::Deny,
            IpFamily::Ipv4,
            "10.2.0.0/16",
            Protocol::Tcp,
            (443, 443),
        ),
    ]);
    let proposed = policy(vec![
        rule(
            "broad",
            Action::Allow,
            IpFamily::Ipv4,
            "10.0.0.0/8",
            Protocol::Tcp,
            (0, 65535),
        ),
        rule(
            "same-shadow-edited",
            Action::Allow,
            IpFamily::Ipv4,
            "10.1.0.0/24",
            Protocol::Tcp,
            (80, 81),
        ),
        rule(
            "opposite-shadow",
            Action::Deny,
            IpFamily::Ipv4,
            "10.2.0.0/16",
            Protocol::Tcp,
            (443, 443),
        ),
    ]);
    let report = analyze(&old, &proposed);
    assert_eq!(report.summary.outcome, "exact-no-semantic-change");
    assert!(report.changes.is_empty());
    assert!(report.proposed_rule_reachability[0].reachable);
    assert!(!report.proposed_rule_reachability[1].reachable);
    assert!(!report.proposed_rule_reachability[2].reachable);
    verify_report(&old, &proposed, &report).unwrap();
}

#[test]
fn families_protocols_and_extreme_ports_remain_separate() {
    let old = policy(vec![]);
    let proposed = policy(vec![
        rule(
            "v4-zero",
            Action::Allow,
            IpFamily::Ipv4,
            "203.0.113.9/32",
            Protocol::Tcp,
            (0, 0),
        ),
        rule(
            "v6-max",
            Action::Allow,
            IpFamily::Ipv6,
            "2001:db8::1/128",
            Protocol::Udp,
            (65535, 65535),
        ),
    ]);
    let report = analyze(&old, &proposed);
    assert_eq!(report.changes.len(), 2);
    for expected in [
        packet(
            IpFamily::Ipv4,
            0xcb00_7109,
            Protocol::Tcp,
            0,
        ),
        packet(
            IpFamily::Ipv6,
            0x2001_0db8_0000_0000_0000_0000_0000_0001,
            Protocol::Udp,
            65535,
        ),
    ] {
        assert_eq!(
            report
                .changes
                .iter()
                .filter(|region| region_contains(region, expected))
                .count(),
            1
        );
    }
    let wrong_family = packet(
        IpFamily::Ipv6,
        0xcb00_7109,
        Protocol::Tcp,
        0,
    );
    assert_eq!(
        evaluate(&proposed, wrong_family).action,
        Action::Deny
    );
    verify_report(&old, &proposed, &report).unwrap();
}

#[test]
fn malformed_inputs_are_rejected_before_analysis() {
    let all = |id: &str, cidr: &str, ports: (u16, u16)| {
        rule(id, Action::Allow, IpFamily::Ipv4, cidr, Protocol::Tcp, ports)
    };
    let malformed = [
        (
            vec![all("x", "10.0.0.1/24", (0, 1))],
            "bad: rule[0] id=\"x\": CIDR \"10.0.0.1/24\" is not canonical",
        ),
        (
            vec![all("x", "2001:db8::/32", (0, 1))],
            "bad: rule[0] id=\"x\": CIDR family Ipv6 does not match declared family Ipv4",
        ),
        (
            vec![all("x", "0.0.0.0/0", (2, 1))],
            "bad: rule[0] id=\"x\": reversed destination-port range 2..1",
        ),
        (
            vec![
                all("x", "0.0.0.0/0", (0, 1)),
                rule(
                    "x",
                    Action::Deny,
                    IpFamily::Ipv4,
                    "10.0.0.0/8",
                    Protocol::Udp,
                    (0, 1),
                ),
            ],
            "bad: rule[1] id=\"x\": duplicate rule id",
        ),
    ];
    for (rules, expected) in malformed {
        let errors = validate_policy(&PolicyFile { rules }, "bad").unwrap_err();
        assert_eq!(errors, [expected]);
    }
}

#[test]
fn implicit_default_marker_cannot_be_used_as_a_real_rule_id() {
    let rules = vec![rule(
        "default-deny",
        Action::Allow,
        IpFamily::Ipv4,
        "0.0.0.0/0",
        Protocol::Tcp,
        (0, 65535),
    )];
    let errors = validate_policy(&PolicyFile { rules }, "adversarial policy").unwrap_err();
    assert_eq!(errors.len(), 1);
    assert!(errors[0].contains("reserved for the implicit default-deny decision"));
}

#[test]
fn output_is_byte_deterministic_and_sorted() {
    let old = policy(vec![
        rule(
            "old-v6",
            Action::Allow,
            IpFamily::Ipv6,
            "::/0",
            Protocol::Udp,
            (0, 65535),
        ),
        rule(
            "old-v4",
            Action::Allow,
            IpFamily::Ipv4,
            "0.0.0.0/0",
            Protocol::Tcp,
            (0, 65535),
        ),
    ]);
    let proposed = policy(vec![]);
    let first = analyze(&old, &proposed);
    let second = analyze(&old, &proposed);
    assert!(same_report(&first, &second));
    let report = analyze(&old, &proposed);
    assert_eq!(report.changes[0].ip_family, IpFamily::Ipv4);
    assert_eq!(report.changes[1].ip_family, IpFamily::Ipv6);
}

#[test]
fn acceptance_differential_workloads() {
    let result = validation_suite(10_000, 1_000, 2_000_000, 0x5eed_2026_0809).unwrap();
    println!("{result}");
    assert!(result.contains("small_pairs=10000"));
    assert!(result.contains("full_width_pairs=1000"));
    assert!(result.contains("boundary_probes=2000000"));
    assert!(result.contains("disagreements=0"));
}

#[test]
fn errors_in_blocks_are_told() {
    let told = |cidr: &str, family: IpFamily| {
        let rules = vec![rule("x", Action::Allow, family, cidr, Protocol::Tcp, (0, 1))];
        validate_policy(&PolicyFile { rules }, "p").unwrap_err()[0].clone()
    };
    for (cidr, expected) in [
        ("10.0.0.0", "malformed CIDR \"10.0.0.0\": missing '/'"),
        ("1/2/3", "malformed CIDR \"1/2/3\": too many '/' separators"),
        ("10.0.0/8", "malformed CIDR \"10.0.0/8\": invalid address"),
        ("10.0.0.0/x", "malformed CIDR \"10.0.0.0/x\": invalid prefix length"),
        ("10.0.0.0/33", "CIDR prefix /33 exceeds 32-bit Ipv4 width"),
    ] {
        assert_eq!(
            told(cidr, IpFamily::Ipv4),
            format!("p: rule[0] id=\"x\": {expected}")
        );
    }
    assert_eq!(
        told("::/129", IpFamily::Ipv6),
        "p: rule[0] id=\"x\": CIDR prefix /129 exceeds 128-bit Ipv6 width"
    );
    let rules = vec![rule("", Action::Allow, IpFamily::Ipv4, "0.0.0.0/0", Protocol::Tcp, (0, 1))];
    assert_eq!(
        validate_policy(&PolicyFile { rules }, "p").unwrap_err(),
        ["p: rule[0] id=\"\": id must not be empty"]
    );
    assert_eq!(
        diagnostics_for_errors(&["a".to_string(), "b".to_string()]),
        "a\nb\n"
    );
}

#[test]
fn addresses_are_read_as_they_are_shown() {
    for (value, shown) in [
        (0u128, "::"),
        (1, "::1"),
        (0xffff_0a00_0001, "::ffff:10.0.0.1"),
        (0x2001_0db8_0000_0000_0000_0000_0000_0000, "2001:db8::"),
        (0x0001_0000_0000_0002_0000_0000_0000_0003, "1:0:0:2::3"),
        (0x0001_0002_0003_0004_0005_0006_0007_0008, "1:2:3:4:5:6:7:8"),
        (u128::MAX, "ffff:ffff:ffff:ffff:ffff:ffff:ffff:ffff"),
    ] {
        assert_eq!(format_address(IpFamily::Ipv6, value), shown);
        assert_eq!(
            parse_packet(shown, Protocol::Udp, 7).unwrap(),
            packet(IpFamily::Ipv6, value, Protocol::Udp, 7)
        );
    }
    assert_eq!(format_address(IpFamily::Ipv4, 0x0102_03ff), "1.2.3.255");
    assert_eq!(
        parse_address_for_family("1.2.3.255", IpFamily::Ipv4),
        Ok(0x0102_03ff)
    );
    assert_eq!(
        parse_address_for_family("1.2.3.255", IpFamily::Ipv6),
        Err("address \"1.2.3.255\" does not match Ipv6".to_string())
    );
    assert_eq!(
        parse_address_for_family("01.2.3.4", IpFamily::Ipv4),
        Err("invalid Ipv4 address \"01.2.3.4\" in report".to_string())
    );
    assert_eq!(
        parse_packet("host\n", Protocol::Tcp, 1),
        Err("invalid packet source_ip \"host\\n\"".to_string())
    );
}

#[test]
fn tampered_reports_are_refused() {
    let old = policy(vec![]);
    let proposed = policy(vec![rule(
        "allow-web",
        Action::Allow,
        IpFamily::Ipv4,
        "10.0.0.0/24",
        Protocol::Tcp,
        (443, 443),
    )]);
    let report = analyze(&old, &proposed);
    assert_eq!(verify_report(&old, &proposed, &report), Ok((1, 1)));
    let refused = Err("report does not byte-semantically match a fresh exact analysis".to_string());
    let mut tampered = report.clone();
    tampered.changes[0].witness.destination_port = 444;
    assert_eq!(verify_report(&old, &proposed, &tampered), refused);
    let mut tampered = report.clone();
    tampered.changes.clear();
    assert_eq!(verify_report(&old, &proposed, &tampered), refused);
    let mut unnumbered = report;
    unnumbered.changes[0].source_start_num = 0;
    unnumbered.changes[0].source_end_num = 0;
    assert_eq!(verify_report(&old, &proposed, &unnumbered), Ok((1, 1)));
}

#[test]
fn samples_are_replayed_until_one_is_no_packet() {
    let old = policy(vec![]);
    let proposed = policy(vec![rule(
        "allow-web",
        Action::Allow,
        IpFamily::Ipv4,
        "10.0.0.0/24",
        Protocol::Tcp,
        (443, 443),
    )]);
    let sample = |source_ip: &str, destination_port: u16| SamplePacket {
        source_ip: source_ip.to_string(),
        protocol: Protocol::Tcp,
        destination_port,
    };
    let told = replay_samples(
        &old,
        &proposed,
        &[sample("10.0.0.7", 80), sample("10.0.0.7", 443)],
    )
    .unwrap();
    assert_eq!(told.sample_count, 2);
    assert_eq!(told.changed_sample_count, 1);
    assert_eq!(told.changed_samples[0].sample_index, 1);
    assert_eq!(told.changed_samples[0].old.rule_id, "default-deny");
    assert_eq!(told.changed_samples[0].proposed.rule_id, "allow-web");
    assert_eq!(
        told.warning,
        "sample replay is incomplete evidence and never establishes no semantic change"
    );
    assert_eq!(
        replay_samples(&old, &proposed, &[sample("10.0.0.7", 80), sample("nowhere", 1)]).unwrap_err(),
        "invalid packet source_ip \"nowhere\""
    );
}

#[test]
fn benchmark_policies_differ_in_their_first_rule() {
    let (old, proposed) = generate_benchmark_pair(7, 42);
    assert_eq!(old.rules.len(), 7);
    assert_eq!(old.rules[0].id, "primary-00000");
    assert_eq!(old.rules[0].source_cidr, "10.0.0.0/32");
    assert_eq!(old.rules[1].id, "shadow-00000");
    assert_eq!(old.rules[2].source_cidr, "2001:db8::/128");
    assert_eq!(old.rules[6].id, "primary-00003");
    assert_eq!(old.rules[0].action, Action::Deny);
    assert_eq!(proposed.rules[0].action, Action::Allow);
    let old = validate_policy(&old, "old").unwrap();
    let proposed = validate_policy(&proposed, "proposed").unwrap();
    let report = analyze(&old, &proposed);
    assert_eq!(report.summary.newly_allowed_regions, 1);
    assert_eq!(report.summary.newly_denied_regions, 0);
    assert_eq!(report.summary.outcome, "newly-allowed");
}

#[test]
fn equal_policies_have_no_regions_and_blocks_are_rounded_down() {
    let rules = policy(vec![rule(
        "a",
        Action::Allow,
        IpFamily::Ipv6,
        "2001:db8::/32",
        Protocol::Udp,
        (5, 9),
    )]);
    let report = analyze(&rules, &rules);
    assert!(report.changes.is_empty());
    assert_eq!(report.summary.outcome, "exact-no-semantic-change");
    assert_eq!(canonical_start(0xdead_beef_0a01_0203, IpFamily::Ipv4, 24), 0x0a01_0200);
    assert_eq!(canonical_start(u128::MAX, IpFamily::Ipv6, 0), 0);
    assert_eq!(canonical_start(u128::MAX, IpFamily::Ipv6, 128), u128::MAX);
}

#[test]
fn a_refused_pair_tells_every_fault_in_order() {
    let start = "input validation failed; no semantic verdict was produced:\n";
    let old = vec!["old: a".to_string(), "old: b".to_string()];
    let proposed = vec!["proposed: c".to_string()];
    assert_eq!(
        refused_pair(&old, &proposed),
        format!("{start}old: a\nold: b\nproposed: c")
    );
    assert_eq!(refused_pair(&vec![], &proposed), format!("{start}proposed: c"));
}

#[test]
fn an_analysis_withdraws_its_report_when_it_fails() {
    let mut progress = Progress::new();
    for stage in [
        Stage::CompareWithOld,
        Stage::CompareWithProposed,
        Stage::RemovePrior,
        Stage::ReadPolicies,
    ] {
        assert_eq!(progress.stage, stage);
        progress = progress.advance(None);
    }
    assert_eq!(progress.stage, Stage::WriteReport);
    progress = progress.advance(Some("full".to_string()));
    assert_eq!(progress.stage, Stage::Withdraw);
    progress = progress.advance(Some("busy".to_string()));
    assert_eq!(progress.stage, Stage::Done);
    assert_eq!(
        progress.error.as_deref(),
        Some("full\nadditionally failed to keep requested report path absent: busy")
    );
    let aliased = Progress::new().advance(Some("aliased".to_string()));
    assert_eq!(aliased.stage, Stage::Done);
    assert_eq!(aliased.error.as_deref(), Some("aliased"));
}

#[test]
fn a_temporary_report_is_tried_under_other_names_and_discarded() {
    assert_eq!(temporary_name("report.json", 7, 0), ".report.json.tmp-7");
    assert_eq!(temporary_name("report.json", 7, 12), ".report.json.tmp-7-12");
    let mut writing = Writing::new();
    for attempt in 0..256 {
        assert_eq!(writing.stage, WriteStage::Create);
        assert_eq!(writing.attempt, attempt);
        writing = writing.advance(StepOutcome::Exists, "r.json", "t");
    }
    assert_eq!(writing.stage, WriteStage::Done);
    assert_eq!(
        writing.error.as_deref(),
        Some("cannot create a fresh temporary report after 256 collisions for r.json")
    );
    let writing = Writing::new()
        .advance(StepOutcome::Done, "r.json", "t")
        .advance(StepOutcome::Done, "r.json", "t")
        .advance(StepOutcome::Failed("busy".to_string()), "r.json", "t");
    assert_eq!(writing.stage, WriteStage::Discard);
    let writing = writing.advance(StepOutcome::Failed("gone".to_string()), "r.json", "t");
    assert_eq!(writing.stage, WriteStage::Done);
    assert_eq!(
        writing.error.as_deref(),
        Some("cannot publish report r.json: busy; additionally cannot remove owned temporary report t: gone")
    );
    let refused = Writing::new().advance(StepOutcome::Failed("denied".to_string()), "r.json", "t");
    assert_eq!(
        refused.error.as_deref(),
        Some("cannot create temporary report t: denied")
    );
    let unwritten = Writing::new()
        .advance(StepOutcome::Done, "r.json", "t")
        .advance(StepOutcome::Failed("full".to_string()), "r.json", "t")
        .advance(StepOutcome::Done, "r.json", "t");
    assert_eq!(unwritten.stage, WriteStage::Done);
    assert_eq!(
        unwritten.error.as_deref(),
        Some("cannot write temporary report t: full")
    );
}
