use sqruff_lib::anchors::compute_anchor_edit_info;
use sqruff_lib::fix::{EditType, LintFix};
use sqruff_lib::markers::PositionMarker;
use sqruff_lib::segment::{SegmentBuilder, Tables};
use sqruff_lib::syntax::{class_types, DialectKind, SyntaxKind, SyntaxSet};
use sqruff_lib::templater::TemplatedFile;
use sqruff_lib::test_functions::{
    generate_test_segments_func, make_result_tuple, raw_seg, raw_segments, test_segments,
};

#[test]
/// Test comparison of raw segments.
fn test_parser_base_segments_raw_compare() {
    let template: TemplatedFile = TemplatedFile::from_string("foobar".to_string());
    let rs1 = SegmentBuilder::token(0, "foobar", SyntaxKind::Word)
        .with_position(PositionMarker::new(0..6, 0..6, template.clone(), None, None))
        .finish();
    let rs2 = SegmentBuilder::token(0, "foobar", SyntaxKind::Word)
        .with_position(PositionMarker::new(0..6, 0..6, template.clone(), None, None))
        .finish();

    assert_eq!(rs1, rs2)
}

#[test]
/// Test raw segments behave as expected.
fn test_parser_base_segments_raw() {
    let raw_seg = raw_seg();

    assert_eq!(raw_seg.raw(), "foobar");
}

#[test]
/// Test BaseSegment.compute_anchor_edit_info().
fn test_parser_base_segments_compute_anchor_edit_info() {
    let raw_segs = raw_segments();
    let mut tables = Tables::default();

    // Construct a fix buffer, intentionally with:
    // - one duplicate.
    // - two different incompatible fixes on the same segment.
    let fixes = vec![
        LintFix::replace(
            raw_segs[0].clone(),
            vec![raw_segs[0].edit(tables.next_id(), Some("a".to_string()), None)],
            None,
        ),
        LintFix::replace(
            raw_segs[0].clone(),
            vec![raw_segs[0].edit(tables.next_id(), Some("a".to_string()), None)],
            None,
        ),
        LintFix::replace(
            raw_segs[0].clone(),
            vec![raw_segs[0].edit(tables.next_id(), Some("b".to_string()), None)],
            None,
        ),
    ];

    let anchor_edit_info = compute_anchor_edit_info(fixes);

    // Check the target segment is the only key we have.
    assert_eq!(anchor_edit_info.keys().collect::<Vec<_>>(), vec![&raw_segs[0].id()]);

    let anchor_info = anchor_edit_info.get(&raw_segs[0].id()).unwrap();

    // Check that the duplicate as been deduplicated i.e. this isn't 3.
    assert_eq!(anchor_info.replace, 2);

    // Check the fixes themselves.
    //   Note: There's no duplicated first fix.
    assert_eq!(
        anchor_info.fixes[0],
        LintFix::replace(
            raw_segs[0].clone(),
            vec![raw_segs[0].edit(tables.next_id(), Some("a".to_string()), None)],
            None,
        )
    );
    assert_eq!(
        anchor_info.fixes[1],
        LintFix::replace(
            raw_segs[0].clone(),
            vec![raw_segs[0].edit(tables.next_id(), Some("b".to_string()), None)],
            None,
        )
    );

    // Check the first replace
    assert_eq!(
        anchor_info.first_replace,
        Some(LintFix::replace(
            raw_segs[0].clone(),
            vec![raw_segs[0].edit(tables.next_id(), Some("a".to_string()), None)],
            None,
        ))
    );
}

#[test]
fn anchor_edit_info_counts_each_kind_and_tells_conflicts() {
    let segs = test_segments();
    let fixes = vec![
        LintFix::create_before(segs[0].clone(), vec![segs[2].clone()]),
        LintFix::create_after(segs[0].clone(), vec![segs[3].clone()], None),
        LintFix::delete(segs[1].clone()),
    ];
    let info = compute_anchor_edit_info(fixes);
    assert_eq!(info.len(), 2);
    let first = info.get(&segs[0].id()).unwrap();
    assert_eq!((first.create_before, first.create_after, first.replace, first.delete), (1, 1, 0, 0));
    assert_eq!(first.total(), 2);
    assert!(first.is_valid());
    assert!(first.first_replace.is_none());
    let second = info.get(&segs[1].id()).unwrap();
    assert_eq!(second.delete, 1);
    assert_eq!(second.fixes[0].edit_type, EditType::Delete);
    assert!(second.is_valid());
}

#[test]
fn fixes_lose_the_markers_of_their_edits() {
    let segs = test_segments();
    assert!(segs[2].get_position_marker().is_some());
    let fix = LintFix::replace(segs[0].clone(), vec![segs[2].clone()], Some(vec![segs[1].clone()]));
    let edit = fix.edit.as_ref().unwrap();
    assert_eq!(edit.len(), 1);
    assert!(edit[0].get_position_marker().is_none());
    assert_eq!(edit[0].raw(), "foo");
    assert_eq!(fix.source.len(), 1);
    assert!(!fix.is_just_source_edit());
    let same_text = LintFix::replace(
        segs[0].clone(),
        vec![SegmentBuilder::token(99, "bar", SyntaxKind::Word).finish()],
        None,
    );
    assert!(same_text.is_just_source_edit());
}

#[test]
fn test_segments_stand_side_by_side() {
    let segs = generate_test_segments_func(vec!["bar", " \t ", "<indent>", "\n", "(", "--x", "'q'"]);
    let kinds: Vec<SyntaxKind> = segs.iter().map(|s| s.get_type()).collect();
    assert_eq!(
        kinds,
        vec![
            SyntaxKind::Word,
            SyntaxKind::Whitespace,
            SyntaxKind::Indent,
            SyntaxKind::Newline,
            SyntaxKind::Symbol,
            SyntaxKind::InlineComment,
            SyntaxKind::SingleQuote,
        ]
    );
    let slices: Vec<(usize, usize)> = segs
        .iter()
        .map(|s| {
            let m = s.get_position_marker().unwrap();
            (m.source_slice.start, m.source_slice.end)
        })
        .collect();
    assert_eq!(slices, vec![(0, 3), (3, 6), (6, 6), (6, 7), (7, 8), (8, 11), (11, 14)]);
    let text: String = segs.iter().map(|s| s.raw()).collect();
    assert_eq!(text, "bar \t \n(--x'q'");
    assert_eq!(segs[3].get_position_marker().unwrap().working_loc(), (1, 7));
    assert_eq!(segs[4].get_position_marker().unwrap().working_loc(), (2, 1));
    assert!(segs[0].is_code());
    assert!(!segs[1].is_code());
    assert!(segs[2].is_meta());
    assert_eq!(segs[2].indent_val(), 1);
}

#[test]
fn make_result_tuple_turns_matched_words_into_keywords() {
    let segs = test_segments();
    assert!(make_result_tuple(None, &["bar"], &segs).is_empty());
    let made = make_result_tuple(Some(0..3), &["bar", "baar"], &segs);
    assert_eq!(made.len(), 3);
    assert_eq!(made[0].get_type(), SyntaxKind::Keyword);
    assert_eq!(made[0].raw(), "bar");
    assert_eq!(made[1].get_type(), SyntaxKind::Whitespace);
    assert_eq!(made[2].get_type(), SyntaxKind::Word);
}

#[test]
fn a_node_holds_the_text_of_its_leaves() {
    let segs = test_segments();
    let inner = SegmentBuilder::node(10, SyntaxKind::SelectClause, DialectKind::Ansi, segs[0..3].to_vec())
        .position_from_segments()
        .finish();
    let outer = SegmentBuilder::node(
        11,
        SyntaxKind::File,
        DialectKind::Ansi,
        vec![inner.clone(), segs[3].clone(), segs[4].clone()],
    )
    .position_from_segments()
    .finish();
    assert_eq!(outer.raw(), "bar \t foobaar \t ");
    let leaves: String = outer.get_raw_segments().iter().map(|s| s.raw()).collect();
    assert_eq!(leaves, outer.raw());
    let m = outer.get_position_marker().unwrap();
    assert_eq!((m.source_slice.start, m.source_slice.end), (0, 16));
    assert_eq!(outer.recursive_crawl_all(false).len(), 7);
    let ids: Vec<u32> = outer.recursive_crawl_all(true).iter().map(|s| s.id()).collect();
    assert_eq!(ids, vec![4, 3, 2, 1, 0, 10, 11]);
    assert!(outer.descendant_type_set().contains(SyntaxKind::Whitespace));
    assert!(outer.descendant_type_set().contains(SyntaxKind::SelectClause));
    assert!(!outer.descendant_type_set().contains(SyntaxKind::File));
    assert_eq!(outer.code_indices(), vec![0, 1]);
    let found = outer.recursive_crawl(
        &SyntaxSet::single(SyntaxKind::Whitespace),
        true,
        &SyntaxSet::empty(),
        true,
    );
    assert_eq!(found.len(), 2);
    assert!(outer.child(&SyntaxSet::single(SyntaxKind::Word)).is_some());
    assert_eq!(outer.children(&SyntaxSet::single(SyntaxKind::Whitespace)).len(), 1);
    let path = outer.path_to(&segs[2]);
    assert_eq!(path.len(), 2);
    assert_eq!((path[0].idx, path[0].len), (0, 3));
    assert_eq!((path[1].idx, path[1].len), (2, 3));
    assert!(outer.path_to(&SegmentBuilder::token(77, "x", SyntaxKind::Word).finish()).is_empty());
}

#[test]
fn class_types_add_the_object_reference() {
    assert!(class_types(SyntaxKind::ColumnReference).contains(SyntaxKind::ObjectReference));
    assert!(class_types(SyntaxKind::ColumnReference).contains(SyntaxKind::ColumnReference));
    assert!(!class_types(SyntaxKind::Keyword).contains(SyntaxKind::ObjectReference));
    assert!(class_types(SyntaxKind::TableReference)
        .same_as(&SyntaxSet::new(&[SyntaxKind::TableReference, SyntaxKind::ObjectReference])));
    assert!(SyntaxSet::empty().is_empty());
    assert!(SyntaxSet::single(SyntaxKind::Dot)
        .union(&SyntaxSet::single(SyntaxKind::Comma))
        .intersects(&SyntaxSet::single(SyntaxKind::Comma)));
}

#[test]
fn tables_hand_out_new_ids() {
    let mut tables = Tables::default();
    assert_eq!(tables.next_id(), 0);
    assert_eq!(tables.next_id(), 1);
    tables.counter = u32::MAX;
    assert_eq!(tables.next_id(), u32::MAX);
    assert_eq!(tables.next_id(), 0);
}
