use sqruff_lib::markers::PositionMarker;
use sqruff_lib::templater::{RawFileSlice, TemplateError, TemplatedFile, TemplatedFileSlice};

fn templated_file_2() -> TemplatedFile {
    TemplatedFile::new(
        "{# blah #}{{ foo }}bc".to_string(),
        "<testing>".to_string(),
        Some("abc".to_string()),
        Some(vec![
            TemplatedFileSlice::new("comment", 0..10, 0..0),
            TemplatedFileSlice::new("templated", 10..19, 0..1),
            TemplatedFileSlice::new("literal", 19..21, 1..3),
        ]),
        Some(vec![
            RawFileSlice::new("{# blah #}".to_string(), "comment".to_string(), 0, None, None),
            RawFileSlice::new("{{ foo }}".to_string(), "templated".to_string(), 10, None, None),
            RawFileSlice::new("bc".to_string(), "literal".to_string(), 19, None, None),
        ]),
    )
    .unwrap()
}

#[test]
fn a_plain_file_is_its_own_template() {
    let f = TemplatedFile::from_string("ab\ncd".to_string());
    assert_eq!(f.source_str(), "ab\ncd");
    assert_eq!(f.templated_str(), "ab\ncd");
    assert!(f.source_only_slices().is_empty());
    assert!(f.is_source_slice_literal(&(0..5)));
    assert_eq!(f.get_line_pos_of_char_pos(0, true), (1, 1));
    assert_eq!(f.get_line_pos_of_char_pos(2, true), (1, 3));
    assert_eq!(f.get_line_pos_of_char_pos(3, false), (2, 1));
    assert_eq!(f.get_line_pos_of_char_pos(5, false), (2, 3));
    let same = TemplatedFile::new("x".to_string(), "f".to_string(), None, None, None).unwrap();
    assert_eq!(same.templated_str(), "x");
}

#[test]
fn the_slices_of_a_templated_file_are_checked() {
    let unsliced = TemplatedFile::new("a".to_string(), "f".to_string(), Some("b".to_string()), None, None);
    assert_eq!(unsliced.err(), Some(TemplateError::Unsliced));
    let gap = TemplatedFile::new(
        "ab".to_string(),
        "f".to_string(),
        None,
        None,
        Some(vec![RawFileSlice::new("a".to_string(), "literal".to_string(), 0, None, None)]),
    );
    assert_eq!(gap.err(), Some(TemplateError::RawSlicesMismatch));
    let late = TemplatedFile::new(
        "ab".to_string(),
        "f".to_string(),
        None,
        Some(vec![TemplatedFileSlice::new("literal", 1..2, 1..2)]),
        None,
    );
    assert_eq!(late.err(), Some(TemplateError::FirstSliceNotAtStart));
    let apart = TemplatedFile::new(
        "ab".to_string(),
        "f".to_string(),
        None,
        Some(vec![
            TemplatedFileSlice::new("literal", 0..1, 0..1),
            TemplatedFileSlice::new("literal", 1..2, 2..2),
        ]),
        None,
    );
    assert_eq!(apart.err(), Some(TemplateError::NonContiguous));
    let short = TemplatedFile::new(
        "ab".to_string(),
        "f".to_string(),
        None,
        Some(vec![TemplatedFileSlice::new("literal", 0..1, 0..1)]),
        None,
    );
    assert_eq!(short.err(), Some(TemplateError::LengthMismatch));
}

#[test]
fn raw_slices_are_found_by_the_source_they_cover() {
    let f = templated_file_2();
    let so = f.source_only_slices();
    assert_eq!(so.len(), 1);
    assert_eq!(so[0].source_slice(), 0..10);
    assert!(so[0].is_source_only_slice());
    assert!(!f.is_source_slice_literal(&(10..21)));
    assert!(f.is_source_slice_literal(&(19..21)));
    assert!(f.is_source_slice_literal(&(12..12)));
    let spanning = f.raw_slices_spanning_source_slice(&(12..20));
    let kinds: Vec<&str> = spanning.iter().map(|s| s.slice_type.as_str()).collect();
    assert_eq!(kinds, vec!["templated", "literal"]);
    assert_eq!(f.raw_slices_spanning_source_slice(&(0..5)).len(), 1);
    assert!(f.raw_slices_spanning_source_slice(&(21..22)).is_empty());
    let end = RawFileSlice::new(String::new(), "literal".to_string(), usize::MAX, None, None);
    assert_eq!(end.end_source_idx(), usize::MAX);
    assert!(end.is_literal());
    assert!(so[0].same(&so[0].clone()));
    assert!(!so[0].same(&end));
}

#[test]
fn markers_know_their_place() {
    let f = TemplatedFile::from_string("ab\ncd\nef".to_string());
    let m = PositionMarker::new(3..5, 3..5, f.clone(), None, None);
    assert_eq!(m.working_loc(), (2, 1));
    assert_eq!(m.source_position(), (2, 1));
    assert_eq!(m.templated_position(), (2, 1));
    assert!(m.is_literal());
    assert!(!m.is_point());
    let start = m.start_point_marker();
    assert!(start.is_point());
    assert_eq!((start.source_slice.start, start.templated_slice.start), (3, 3));
    assert_eq!(start.working_loc(), (2, 1));
    let end = m.end_point_marker();
    assert_eq!(end.source_slice, 5..5);
    assert_eq!(end.working_loc(), (2, 3));
    let both = PositionMarker::from_points(&start, &end);
    assert_eq!(both.source_slice, 3..5);
    assert_eq!(both.working_loc(), (2, 1));
    assert!(both.same(&m));
    let given = PositionMarker::new(0..1, 0..1, f.clone(), Some(7), Some(9));
    assert_eq!(given.working_loc(), (7, 9));
    assert_eq!(given.with_working_position(1, 2).working_loc(), (1, 2));
    let parent = PositionMarker::from_child_markers(&vec![
        PositionMarker::new(6..8, 6..8, f.clone(), None, None),
        m.clone(),
    ]);
    assert_eq!(parent.source_slice, 3..8);
    assert_eq!(parent.templated_slice, 3..8);
    assert_eq!(parent.working_loc(), (2, 1));
    assert_eq!(PositionMarker::from_point(8, 8, f, None, None).working_loc(), (3, 3));
}

#[test]
fn the_next_position_follows_the_text() {
    assert_eq!(PositionMarker::infer_next_position("", 3, 4), (3, 4));
    assert_eq!(PositionMarker::infer_next_position("abc", 3, 4), (3, 7));
    assert_eq!(PositionMarker::infer_next_position("a\nbc", 3, 4), (4, 3));
    assert_eq!(PositionMarker::infer_next_position("\n\n", 1, 1), (3, 1));
    assert_eq!(PositionMarker::infer_next_position("\u{e9}", 1, 1), (1, 3));
    assert_eq!(PositionMarker::infer_next_position("x", 1, usize::MAX), (1, usize::MAX));
    let f = TemplatedFile::from_string("ab".to_string());
    let m = PositionMarker::new(0..2, 0..2, f, None, None);
    assert_eq!(m.working_loc_after("ab"), (1, 3));
}
