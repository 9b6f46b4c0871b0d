use workshop::highlight::edit::{Edit, EditError};
use workshop::highlight::incremental::{estimate_of_rooms, IncrementalLexer, LineRooms};
use workshop::highlight::lex::{full_lex, validate_coverage};
use workshop::highlight::scan::{LexState, RelativeToken, TokenKind};

#[test]
fn full_lexer_covers_utf8_and_states() {
    let doc = "alpha 12 λ; # hi\r\n\"escaped \\\" quote\" /* block\nend */ z";
    let result = full_lex(doc);
    validate_coverage(doc, &result).unwrap();
    assert_eq!(result.final_state, LexState::Normal);
}

#[test]
fn unterminated_diagnostic_points_to_opener() {
    let doc = "x\n/* open\nstill";
    let result = full_lex(doc);
    assert_eq!(result.diagnostics[0].start, 2);
    assert_eq!(result.diagnostics[0].end, doc.len());
}

#[test]
fn localized_and_propagating_edits_match_full_lexer() {
    let mut lexer = IncrementalLexer::new("head\nbody\ntail\n".to_string());
    for edit in [
        Edit {
            start: 6,
            deleted_bytes: 1,
            replacement: "λ".to_string(),
        },
        Edit {
            start: 5,
            deleted_bytes: 0,
            replacement: "/*".to_string(),
        },
        Edit {
            start: 5,
            deleted_bytes: 2,
            replacement: String::new(),
        },
    ] {
        lexer.apply_edit(&edit).unwrap();
        let actual = lexer.result();
        let expected = full_lex(lexer.document());
        assert_eq!(actual, expected);
        validate_coverage(lexer.document(), &actual).unwrap();
    }
}

#[test]
fn rejected_edits_leave_state_unchanged() {
    let mut lexer = IncrementalLexer::new("aλz".to_string());
    let before_doc = lexer.document().to_string();
    let before_result = lexer.result();
    let before_counters = lexer.counters();
    assert_eq!(
        lexer.apply_edit(&Edit {
            start: 2,
            deleted_bytes: 0,
            replacement: "x".to_string(),
        }),
        Err(EditError::NotCharBoundary)
    );
    assert_eq!(
        lexer.apply_edit(&Edit {
            start: 99,
            deleted_bytes: 0,
            replacement: String::new(),
        }),
        Err(EditError::OutOfBounds)
    );
    assert_eq!(lexer.document(), before_doc);
    assert_eq!(lexer.result(), before_result);
    assert_eq!(lexer.counters(), before_counters);
}

#[test]
fn cross_line_edit_does_not_split_string_token_at_preserved_newline() {
    let mut lexer = IncrementalLexer::new("/λa\n\n".to_string());
    lexer
        .apply_edit(&Edit {
            start: 3,
            deleted_bytes: 2,
            replacement: "\r\n\"🙂🙂".to_string(),
        })
        .unwrap();
    assert_eq!(lexer.document(), "/λ\r\n\"🙂🙂\n");
    assert_eq!(lexer.line_count(), 3);
    let result = lexer.result();
    assert_eq!(result, full_lex(lexer.document()));
    let string_ranges: Vec<_> = result
        .tokens
        .iter()
        .filter(|token| token.kind == TokenKind::String)
        .map(|token| token.start..token.end)
        .collect();
    assert_eq!(string_ranges, vec![5..15]);
}

#[test]
fn the_estimate_adds_up_rooms_and_allowances() {
    let token = std::mem::size_of::<RelativeToken>();
    let word = std::mem::size_of::<usize>();
    let empty: Vec<LineRooms> = vec![];
    assert_eq!(estimate_of_rooms(0, 0, &empty, 100), 64);
    assert_eq!(estimate_of_rooms(3, 4, &empty, 100), 300 + 4 * word + 64);
    let rooms = vec![
        LineRooms {
            content: 5,
            tokens: 4,
        },
        LineRooms {
            content: 0,
            tokens: 2,
        },
        LineRooms {
            content: 7,
            tokens: 0,
        },
    ];
    assert_eq!(
        estimate_of_rooms(3, 3, &rooms, 80),
        3 * 80 + 3 * word + 12 + 6 * token + 4 * 32 + 64
    );
    let short = IncrementalLexer::new("ab".to_string()).retained_index_estimate_bytes();
    let long = IncrementalLexer::new("ab cd\n".repeat(100)).retained_index_estimate_bytes();
    assert!(short >= 64 + 2 + 32);
    assert!(long > short);
}

#[test]
fn ascii_tells_words_numbers_and_blanks_apart() {
    let doc = "ab_1 \t27+";
    let kinds: Vec<(TokenKind, usize, usize)> = full_lex(doc)
        .tokens
        .iter()
        .map(|token| (token.kind, token.start, token.end))
        .collect();
    assert_eq!(
        kinds,
        vec![
            (TokenKind::Identifier, 0, 4),
            (TokenKind::Whitespace, 4, 6),
            (TokenKind::Number, 6, 8),
            (TokenKind::Punctuation, 8, 9),
        ]
    );
}
