use workshop::highlight::digest::{digest_text, fingerprint, mix_digest, result_digest};
use workshop::highlight::edit::{Edit, EditError};
use workshop::highlight::incremental::{EditWork, IncrementalLexer};
use workshop::highlight::lex::full_lex;
use workshop::highlight::workload::{
    baseline_fixture, benchmark_edit, benchmark_fixture, compare_with_full, correctness_document,
    generated_edit, padded, same_result, Rng, Tally, BENCHMARK_LINES, DOCUMENT_SEED, EDIT_SEED,
    TOGGLE_LINE,
};

fn edit(start: usize, deleted_bytes: usize, replacement: &str) -> Edit {
    Edit {
        start,
        deleted_bytes,
        replacement: replacement.to_string(),
    }
}

#[test]
fn draws_are_fixed_by_their_seed() {
    let mut rng = Rng::new(1);
    assert_eq!(rng.next_u64(), 1_082_269_761);
    assert_eq!(rng.state, 1_082_269_761);
    let mut again = Rng::new(1);
    assert_eq!(again.index(1_000), 761);
}

#[test]
fn texts_are_padded_to_their_bytes() {
    assert_eq!(padded("ab", 5, 'x'), "abxxx");
    assert_eq!(padded("λ", 4, '-'), "λ--");
    assert_eq!(padded("full", 4, '-'), "full");
    let line = "generated_identifier_012345678901234567890123456789\n";
    assert_eq!(baseline_fixture(0), "");
    assert_eq!(baseline_fixture(107), format!("{line}{line}xxx"));
}

#[test]
fn drawn_edits_are_accepted_and_leave_nothing_to_lex_anew() {
    let mut document_rng = Rng::new(DOCUMENT_SEED);
    let mut edit_rng = Rng::new(EDIT_SEED);
    for document_index in 0..20 {
        let document = correctness_document(&mut document_rng, document_index);
        match document_index % 3 {
            0 => assert!(document.ends_with("\n/* intentionally unterminated")),
            1 => assert!(document.ends_with("\n\"intentionally unterminated\\")),
            _ => assert!(!document.contains("intentionally")),
        }
        let mut lexer = IncrementalLexer::new(document);
        compare_with_full(&lexer, document_index, 0).unwrap();
        for edit_index in 0..100 {
            let edit = generated_edit(lexer.document(), &mut edit_rng, edit_index);
            lexer.apply_edit(&edit).unwrap();
            compare_with_full(&lexer, document_index, edit_index + 1).unwrap();
        }
        assert_eq!(lexer.counters().edits, 100);
    }
}

#[test]
fn hard_edits_match_a_lexer_that_starts_anew() {
    let cases: Vec<(&str, Vec<Edit>)> = vec![
        (
            "alpha xx beta\nstill normal\nend\n",
            vec![
                edit(6, 2, "/*"),
                edit(6, 2, "xx"),
                edit(16, 0, "*/"),
                edit(16, 2, ""),
            ],
        ),
        (
            "/* outer /* inner */ tail\nnormal\n",
            vec![edit(9, 2, "zz"), edit(9, 2, "/*")],
        ),
        (
            "\"one \\\" two\" after\n",
            vec![edit(5, 1, ""), edit(5, 0, "\\")],
        ),
        ("start end", vec![edit(0, 1, ""), edit(8, 0, "!")]),
        (
            "one\r\ntwo\r\nthree",
            vec![edit(3, 2, "\n"), edit(3, 1, "\r\n")],
        ),
        ("aλb\n雪x", vec![edit(3, 1, "q"), edit(8, 0, "🙂")]),
        (
            "head\n\"open\nstill",
            vec![edit(5, 1, "/*"), edit(5, 2, "\"")],
        ),
        (
            "\"left right\"\ntail",
            vec![edit(6, 1, "\n"), edit(6, 1, " ")],
        ),
        ("/λa\n\n", vec![edit(3, 2, "\r\n\"🙂🙂")]),
    ];
    for (case_index, (document, edits)) in cases.into_iter().enumerate() {
        let mut lexer = IncrementalLexer::new(document.to_string());
        for (edit_index, edit) in edits.iter().enumerate() {
            lexer.apply_edit(edit).unwrap();
            compare_with_full(&lexer, case_index, edit_index + 1).unwrap();
            assert_eq!(lexer.result(), full_lex(lexer.document()));
        }
    }
}

#[test]
fn an_edit_can_be_undone() {
    let document = "aλb\n\"雪\nx";
    let mut lexer = IncrementalLexer::new(document.to_string());
    let before = lexer.result();
    lexer.apply_edit(&edit(1, 2, "/*")).unwrap();
    assert_eq!(lexer.document(), "a/*b\n\"雪\nx");
    assert!(!same_result(&before, &lexer.result()));
    lexer.apply_edit(&edit(1, 2, "λ")).unwrap();
    assert_eq!(lexer.document(), document);
    assert!(same_result(&before, &lexer.result()));
}

#[test]
fn refused_edits_tell_why() {
    let mut lexer = IncrementalLexer::new("aλz\r\n".to_string());
    assert_eq!(
        lexer.apply_edit(&edit(2, 0, "x")),
        Err(EditError::NotCharBoundary)
    );
    assert_eq!(
        lexer.apply_edit(&edit(1, 1, "")),
        Err(EditError::NotCharBoundary)
    );
    assert_eq!(
        lexer.apply_edit(&edit(99, 0, "")),
        Err(EditError::OutOfBounds)
    );
    assert_eq!(
        EditError::OutOfBounds.message(),
        "edit range exceeds document bounds"
    );
    assert_eq!(
        EditError::NotCharBoundary.message(),
        "edit range splits a UTF-8 scalar"
    );
}

#[test]
fn the_timed_document_has_its_shape() {
    let fixture = benchmark_fixture();
    assert_eq!(fixture.starts.len(), BENCHMARK_LINES);
    assert_eq!(fixture.document.matches('\n').count() + 1, BENCHMARK_LINES);
    assert_eq!(fixture.toggle_line, TOGGLE_LINE);
    let toggle = fixture.toggle_position;
    assert_eq!(&fixture.document[toggle..toggle + 2], "zz");
    assert_eq!(fixture.starts[1], 2);
    assert_eq!(
        &fixture.document[..fixture.starts[2]],
        format!("\r\n1234567890{}\n", "7".repeat(41))
    );
    assert_eq!(fixture.body_lengths[5], 51);
    assert!(fixture.document[fixture.starts[5]..].starts_with("λunicode_identifier_m"));
    assert!(fixture.document.ends_with('u'));
    assert_eq!(fixture.body_lengths[BENCHMARK_LINES - 1], 52);

    let mut rng = Rng::new(EDIT_SEED);
    let opened = benchmark_edit(&fixture, &mut rng, 19, false);
    assert_eq!((opened.start, opened.deleted_bytes), (toggle, 2));
    assert_eq!(opened.replacement, "/*");
    assert_eq!(
        benchmark_edit(&fixture, &mut rng, 39, true).replacement,
        "zz"
    );
    assert_eq!(rng.state, EDIT_SEED);
    let local = benchmark_edit(&fixture, &mut rng, 4, false);
    assert_eq!((local.deleted_bytes, local.replacement.as_str()), (1, "q"));
    assert!(fixture.starts.contains(&(local.start - 6)));
    assert_ne!(rng.state, EDIT_SEED);
}

#[test]
fn work_is_tallied_by_its_kind() {
    let mut tally = Tally::new();
    let near = EditWork {
        lines_relexed: 500,
        bytes_scanned: 20,
        converged: true,
        scanned_to_eof: false,
    };
    tally.note(0, &near, 1_000).unwrap();
    let far = EditWork {
        lines_relexed: 501,
        bytes_scanned: 21,
        ..near
    };
    tally.note(1, &far, 1_000).unwrap();
    assert_eq!(
        tally.note(19, &near, 1_000),
        Err("propagating edit 19 unexpectedly converged before EOF".to_string())
    );
    let whole = EditWork {
        scanned_to_eof: true,
        ..near
    };
    tally.note(19, &whole, 1_000).unwrap();
    assert_eq!(
        tally,
        Tally {
            localized_edits: 2,
            propagating_edits: 1,
            localized_at_most_500_lines: 1,
            localized_at_most_2_percent_bytes: 1,
            full_relex_bytes: 3_000,
        }
    );
}

#[test]
fn digests_are_those_of_the_bytes() {
    assert_eq!(fingerprint(b""), 0xcbf2_9ce4_8422_2325);
    assert_eq!(fingerprint(b"a"), 0xaf63_dc4c_8601_ec8c);
    assert_eq!(digest_text(0xaf63_dc4c_8601_ec8c), "af63dc4c8601ec8c");
    assert_eq!(digest_text(255), "00000000000000ff");
    assert_eq!(result_digest(b"a"), "af63dc4c8601ec8c");
    assert_eq!(mix_digest(fingerprint(b""), "a"), fingerprint(b"a"));
}

#[test]
fn the_index_is_estimated_from_what_it_holds() {
    let mut lexer = IncrementalLexer::new("alpha 12\n# note\n".to_string());
    let first = lexer.retained_index_estimate_bytes();
    assert!(first >= lexer.document().len());
    assert!(lexer.max_retained_index_estimate_bytes() >= first);
    lexer
        .apply_edit(&edit(0, 0, &"beta 7;\n".repeat(100)))
        .unwrap();
    assert!(lexer.max_retained_index_estimate_bytes() > first);
    assert_eq!(lexer.line_count(), 103);
}
