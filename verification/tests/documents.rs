use vest_db::requests::location_for_span;
use vest_db::types::Span;
use vest_db::source::{
    Point, Position, Range, SourceDatabase, SourceDocument, SourceError, TextChange,
};

fn uri(name: &str) -> String {
    format!("file:///tmp/{name}.vest")
}

fn change(range: Option<Range>, text: &str) -> TextChange {
    TextChange { range, text: text.to_string() }
}

#[test]
fn open_change_and_close_document() {
    let uri = uri("example");
    let mut db = SourceDatabase::new();
    db.open(uri.clone(), 1, "packet = { field: u8, }\n".into());

    let edits = db
        .apply_changes(
            &uri,
            2,
            &[change(Some(Range::new(Position::new(0, 18), Position::new(0, 20))), "u16")],
        )
        .unwrap();

    let document = db.document(&uri).unwrap();
    assert_eq!(document.version(), 2);
    assert_eq!(document.text(), "packet = { field: u16, }\n");
    assert_eq!(edits.len(), 1);
    assert_eq!(edits[0].input_edit.old_end_byte - edits[0].input_edit.start_byte, 2);
    assert_eq!(edits[0].input_edit.new_end_byte - edits[0].input_edit.start_byte, 3);

    assert!(db.close(&uri).is_some());
    assert!(!db.contains(&uri));
}

#[test]
fn utf16_position_round_trip() {
    let document = SourceDocument::new(1, "label = \"💡\"\n".into());
    let after_emoji = Position::new(0, 11);
    let byte_offset = document.position_to_byte_offset(after_emoji).unwrap();

    assert_eq!(byte_offset, 13);
    assert_eq!(document.byte_offset_to_position(byte_offset).unwrap(), after_emoji);
}

#[test]
fn document_not_open_error() {
    let mut db = SourceDatabase::new();
    let uri = uri("missing");
    let result = db.apply_changes(&uri, 1, &[]);
    assert_eq!(result.unwrap_err(), SourceError::DocumentNotOpen(uri));
}

#[test]
fn position_and_byte_offset_round_trip_across_lines_and_utf16() {
    let document = SourceDocument::new(1, "a\né\n💡z\n".into());

    let positions = [
        Position::new(0, 0),
        Position::new(0, 1),
        Position::new(1, 0),
        Position::new(1, 1),
        Position::new(2, 0),
        Position::new(2, 2),
        Position::new(2, 3),
    ];

    for position in positions {
        let byte = document.position_to_byte_offset(position).unwrap();
        let round_trip = document.byte_offset_to_position(byte).unwrap();
        assert_eq!(round_trip, position);
    }
}

#[test]
fn byte_span_for_range_matches_expected_points_and_bytes() {
    let document = SourceDocument::new(1, "ab\ncd\n".into());
    let range = Range::new(Position::new(0, 1), Position::new(1, 1));

    let span = document.byte_span_for_range(range).unwrap();

    assert_eq!(span.start_byte, 1);
    assert_eq!(span.end_byte, 4);
    assert_eq!(span.start_point, Point::new(0, 1));
    assert_eq!(span.end_point, Point::new(1, 1));
}

#[test]
fn byte_range_to_lsp_range_round_trip() {
    let document = SourceDocument::new(1, "hello\n💡x\n".into());
    let original = Range::new(Position::new(1, 0), Position::new(1, 3));

    let start = document.position_to_byte_offset(original.start).unwrap();
    let end = document.position_to_byte_offset(original.end).unwrap();

    let converted = document.byte_range_to_lsp_range(start, end).unwrap();
    assert_eq!(converted, original);
}

#[test]
fn apply_multiple_incremental_changes_updates_text_and_input_edits() {
    let uri = uri("multi_change");
    let mut db = SourceDatabase::new();
    db.open(uri.clone(), 1, "name = u8\n".into());

    let edits = db
        .apply_changes(
            &uri,
            2,
            &[
                change(Some(Range::new(Position::new(0, 7), Position::new(0, 9))), "u16"),
                change(Some(Range::new(Position::new(0, 0), Position::new(0, 4))), "packet"),
            ],
        )
        .unwrap();

    let document = db.document(&uri).unwrap();
    assert_eq!(document.version(), 2);
    assert_eq!(document.text(), "packet = u16\n");
    assert_eq!(edits.len(), 2);

    assert_eq!(edits[0].input_edit.start_byte, 7);
    assert_eq!(edits[0].input_edit.old_end_byte, 9);
    assert_eq!(edits[0].input_edit.new_end_byte, 10);

    assert_eq!(edits[1].input_edit.start_byte, 0);
    assert_eq!(edits[1].input_edit.old_end_byte, 4);
    assert_eq!(edits[1].input_edit.new_end_byte, 6);
}

#[test]
fn full_document_replacement_uses_full_span() {
    let uri = uri("full_replace");
    let mut db = SourceDatabase::new();
    db.open(uri.clone(), 1, "old\ntext\n".into());

    let edits = db.apply_changes(&uri, 3, &[change(None, "new")]).unwrap();

    let document = db.document(&uri).unwrap();
    assert_eq!(document.version(), 3);
    assert_eq!(document.text(), "new");
    assert_eq!(edits.len(), 1);
    assert_eq!(edits[0].input_edit.start_byte, 0);
    assert_eq!(edits[0].input_edit.old_end_byte, "old\ntext\n".len());
    assert_eq!(edits[0].input_edit.new_end_byte, 3);
    assert_eq!(edits[0].input_edit.start_position, Point::new(0, 0));
    assert_eq!(edits[0].input_edit.new_end_position, Point::new(0, 3));
}

#[test]
fn invalid_character_inside_utf16_code_unit_is_rejected() {
    let document = SourceDocument::new(1, "💡\n".into());
    let err = document.position_to_byte_offset(Position::new(0, 1)).unwrap_err();
    assert_eq!(err, SourceError::InvalidCharacter { line: 0, character: 1 });
}

#[test]
fn invalid_line_and_byte_offsets_are_reported() {
    let document = SourceDocument::new(1, "line\n".into());

    assert_eq!(
        document.position_to_byte_offset(Position::new(3, 0)).unwrap_err(),
        SourceError::InvalidLine { line: 3 }
    );

    assert_eq!(
        document.byte_offset_to_position(99).unwrap_err(),
        SourceError::InvalidByteOffset { byte_offset: 99 }
    );
}

#[test]
fn invalid_character_boundary_is_reported() {
    let document = SourceDocument::new(1, "é".into());
    assert_eq!(
        document.byte_offset_to_position(1).unwrap_err(),
        SourceError::InvalidCharacterBoundary { byte_offset: 1 }
    );
}

#[test]
fn full_span_covers_text_and_ends_after_last_line() {
    let document = SourceDocument::new(4, "ab\ncde".into());
    let span = document.full_span();
    assert_eq!(span.start_byte, 0);
    assert_eq!(span.end_byte, 6);
    assert_eq!(span.start_point, Point::new(0, 0));
    assert_eq!(span.end_point, Point::new(1, 3));
}

#[test]
fn position_to_point_counts_bytes_on_the_line() {
    let document = SourceDocument::new(1, "x\n💡y\n".into());
    assert_eq!(document.position_to_point(Position::new(1, 2)).unwrap(), Point::new(1, 4));
    assert_eq!(document.position_to_point(Position::new(1, 3)).unwrap(), Point::new(1, 5));
    assert_eq!(
        document.position_to_point(Position::new(1, 1)).unwrap_err(),
        SourceError::InvalidCharacter { line: 1, character: 1 }
    );
}

#[test]
fn column_past_end_of_line_is_rejected() {
    let document = SourceDocument::new(1, "ab\ncd".into());
    assert_eq!(document.position_to_byte_offset(Position::new(0, 2)).unwrap(), 2);
    assert_eq!(
        document.position_to_byte_offset(Position::new(0, 3)).unwrap_err(),
        SourceError::InvalidCharacter { line: 0, character: 3 }
    );
    assert_eq!(document.position_to_byte_offset(Position::new(1, 2)).unwrap(), 5);
    assert_eq!(
        document.position_to_byte_offset(Position::new(2, 0)).unwrap_err(),
        SourceError::InvalidLine { line: 2 }
    );
}

#[test]
fn every_offset_round_trips_through_its_position() {
    let document = SourceDocument::new(1, "a\né💡\n\nxyz".into());
    let text = document.text().to_string();
    for offset in 0..=text.len() {
        match document.byte_offset_to_position(offset) {
            Ok(position) => {
                assert!(text.is_char_boundary(offset));
                assert_eq!(document.position_to_byte_offset(position).unwrap(), offset);
            }
            Err(err) => {
                assert!(!text.is_char_boundary(offset));
                assert_eq!(err, SourceError::InvalidCharacterBoundary { byte_offset: offset });
            }
        }
    }
}

#[test]
fn failed_change_keeps_earlier_changes_and_version() {
    let uri = uri("partial");
    let mut db = SourceDatabase::new();
    db.open(uri.clone(), 1, "abc\n".into());

    let result = db.apply_changes(
        &uri,
        5,
        &[
            change(Some(Range::new(Position::new(0, 0), Position::new(0, 1))), "X"),
            change(Some(Range::new(Position::new(4, 0), Position::new(4, 1))), "Y"),
            change(None, "never"),
        ],
    );

    assert_eq!(result.unwrap_err(), SourceError::InvalidLine { line: 4 });
    let document = db.document(&uri).unwrap();
    assert_eq!(document.text(), "Xbc\n");
    assert_eq!(document.version(), 1);
}

#[test]
fn multi_line_insertion_moves_end_point_to_new_row() {
    let uri = uri("multi_line");
    let mut db = SourceDatabase::new();
    db.open(uri.clone(), 1, "ab\ncd".into());

    let edits = db
        .apply_changes(
            &uri,
            2,
            &[change(Some(Range::new(Position::new(1, 1), Position::new(1, 1))), "x\nyz\n💡")],
        )
        .unwrap();

    assert_eq!(db.document(&uri).unwrap().text(), "ab\ncx\nyz\n💡d");
    let edit = edits[0].input_edit;
    assert_eq!(edit.start_byte, 4);
    assert_eq!(edit.old_end_byte, 4);
    assert_eq!(edit.new_end_byte, 4 + "x\nyz\n💡".len());
    assert_eq!(edit.start_position, Point::new(1, 1));
    assert_eq!(edit.old_end_position, Point::new(1, 1));
    assert_eq!(edit.new_end_position, Point::new(3, 4));
}

#[test]
fn reopening_a_document_replaces_it() {
    let uri = uri("reopen");
    let mut db = SourceDatabase::new();
    db.open(uri.clone(), 1, "first".into());
    db.open(uri.clone(), 7, "second".into());
    let document = db.document(&uri).unwrap();
    assert_eq!(document.version(), 7);
    assert_eq!(document.text(), "second");
    assert!(db.close(&uri).is_some());
    assert!(db.close(&uri).is_none());
    assert!(db.document(&uri).is_none());
}

#[test]
fn set_version_keeps_text() {
    let mut document = SourceDocument::new(1, "keep".into());
    document.set_version(9);
    assert_eq!(document.version(), 9);
    assert_eq!(document.text(), "keep");
}

#[test]
fn changes_applicable_rejects_reversed_ranges() {
    let uri = uri("applicable");
    let mut db = SourceDatabase::new();
    db.open(uri.clone(), 1, "abcdef\n".into());
    let forward = [change(Some(Range::new(Position::new(0, 1), Position::new(0, 3))), "x")];
    let reversed = [change(Some(Range::new(Position::new(0, 3), Position::new(0, 1))), "x")];
    let after_failure = [
        change(Some(Range::new(Position::new(9, 0), Position::new(9, 1))), "x"),
        change(Some(Range::new(Position::new(0, 3), Position::new(0, 1))), "x"),
    ];
    assert!(db.changes_applicable(&uri, &forward));
    assert!(!db.changes_applicable(&uri, &reversed));
    assert!(db.changes_applicable(&uri, &after_failure));
    assert!(db.changes_applicable("file:///tmp/not_open.vest", &reversed));
}

#[test]
fn spans_become_ranges_when_their_ends_are_boundaries() {
    let document = SourceDocument::new(1, "ab\né💡\n".into());
    assert_eq!(
        location_for_span(&document, Span::new(3, 9)),
        Some(Range::new(Position::new(1, 0), Position::new(1, 3)))
    );
    assert_eq!(location_for_span(&document, Span::new(0, 2)), Some(Range::new(Position::new(0, 0), Position::new(0, 2))));
    assert_eq!(location_for_span(&document, Span::new(4, 9)), None);
    assert_eq!(location_for_span(&document, Span::new(0, 40)), None);
}
