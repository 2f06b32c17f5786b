use sqruff_lib::match_result::{MatchResult, Matched, Span};
use sqruff_lib::matchable::{next_matchable_cache_key, CacheKeys, Matchable, NonCodeMatcher};
use sqruff_lib::meta::MetaSegment;
use sqruff_lib::segment::Tables;
use sqruff_lib::syntax::{DialectKind, SyntaxKind};
use sqruff_lib::test_functions::test_segments;

#[test]
fn test_non_code_matcher() {
    let matcher = NonCodeMatcher;
    let test_segments = test_segments();
    let m = matcher.match_segments(&test_segments[1..], 0);

    // NonCode Matcher doesn't work with simple
    assert!(matcher.simple().is_none());

    // We should match one and only one segment
    assert_eq!(m.len(), 1);
}

#[test]
fn non_code_matcher_takes_the_whole_run() {
    let matcher = NonCodeMatcher;
    let segs = test_segments();
    assert_eq!(matcher.match_segments(&segs, 0).len(), 0);
    assert!(matcher.match_segments(&segs, 0).is_empty());
    let m = matcher.match_segments(&segs, 4);
    assert_eq!(m.span, Span { start: 4, end: 5 });
    assert_eq!(matcher.match_segments(&segs, 5).span, Span { start: 5, end: 5 });
    assert!(!matcher.is_optional());
    assert_eq!(matcher.cache_key(), 0);
}

#[test]
fn cache_keys_are_new_and_never_the_reserved_one() {
    let mut keys = CacheKeys::new();
    assert_eq!(next_matchable_cache_key(&mut keys), 1);
    assert_eq!(next_matchable_cache_key(&mut keys), 2);
    assert_eq!(keys.next, 3);
}

#[test]
fn meta_segments_hold_no_text() {
    assert_eq!(MetaSegment::indent().kind, SyntaxKind::Indent);
    assert_eq!(MetaSegment::dedent().kind, SyntaxKind::Dedent);
    assert_eq!(MetaSegment::implicit_indent().kind, SyntaxKind::Implicit);
    let mut meta = MetaSegment::from_kind(SyntaxKind::Indent);
    assert_eq!(meta.id, 0);
    assert!(meta.position_marker.is_none());
    meta.set_id(5);
    let seg = meta.to_erased_segment();
    assert_eq!(seg.raw(), "");
    assert_eq!(seg.id(), 5);
    assert!(seg.is_meta());
    assert!(!seg.is_code());
}

#[test]
fn match_results_compose() {
    let a = MatchResult::from_span(0, 2);
    let b = MatchResult::from_span(2, 3);
    let e = MatchResult::empty_at(7);
    assert!(e.is_empty());
    assert!(!e.has_match());
    assert!(a.has_match());
    assert!(a.is_better_than(&b));
    assert!(!b.is_better_than(&a));
    let ab = a.copy().append(b.copy());
    assert_eq!(ab.span, Span { start: 0, end: 3 });
    assert!(ab.matched.is_none());
    assert!(ab.child_matches.is_empty());
    // The empty match is a unit.
    assert_eq!(a.copy().append(e.copy()).span, a.span);
    assert_eq!(e.copy().append(a.copy()).span, a.span);
    // A tagged match becomes a child match of the whole.
    let tagged = b.copy().wrap(Matched::SyntaxKind(SyntaxKind::SelectClause));
    assert!(tagged.matched.is_some());
    let whole = a.copy().append(tagged.copy());
    assert_eq!(whole.span, Span { start: 0, end: 3 });
    assert_eq!(whole.child_matches.len(), 1);
    assert_eq!(whole.child_matches[0].span, Span { start: 2, end: 3 });
    // Wrapping the empty match leaves it as it is.
    assert!(e.copy().wrap(Matched::SyntaxKind(SyntaxKind::File)).matched.is_none());
    // Wrapping a tagged match puts it below the new tag.
    let twice = tagged.wrap(Matched::SyntaxKind(SyntaxKind::Statement));
    assert_eq!(twice.child_matches.len(), 1);
    // Composition is associative.
    let c = MatchResult::from_span(3, 5);
    let left = a.copy().append(b.copy()).append(c.copy());
    let right = a.append(b.append(c));
    assert_eq!(left.span, right.span);
    assert_eq!(left.child_matches.len(), right.child_matches.len());
}

#[test]
fn applying_a_match_makes_the_segments() {
    let segs = test_segments();
    let mut tables = Tables { counter: 100 };
    let mut inner = MatchResult::from_span(2, 4);
    inner.insert_segments.push((2, SyntaxKind::Indent));
    let inner = inner.wrap(Matched::SyntaxKind(SyntaxKind::SelectClause));
    let mut outer = MatchResult::from_span(0, 5);
    outer.child_matches.push(inner);
    outer.insert_segments.push((5, SyntaxKind::Dedent));
    let outer = outer.wrap(Matched::SyntaxKind(SyntaxKind::Statement));
    let made = outer.apply(&segs, &mut tables, DialectKind::Ansi);
    assert_eq!(made.len(), 1);
    let statement = &made[0];
    assert_eq!(statement.get_type(), SyntaxKind::Statement);
    assert_eq!(statement.raw(), "bar \t foobaar \t ");
    let kinds: Vec<SyntaxKind> = statement.segments().iter().map(|s| s.get_type()).collect();
    assert_eq!(
        kinds,
        vec![
            SyntaxKind::Word,
            SyntaxKind::Whitespace,
            SyntaxKind::SelectClause,
            SyntaxKind::Whitespace,
            SyntaxKind::Dedent,
        ]
    );
    let clause = &statement.segments()[2];
    assert_eq!(clause.raw(), "foobaar");
    assert_eq!(clause.segments()[0].get_type(), SyntaxKind::Indent);
    assert_eq!(clause.segments().len(), 3);
    // The ids come from the tables: the marker, the clause, the other marker, the statement.
    assert_eq!(clause.segments()[0].id(), 100);
    assert_eq!(clause.id(), 101);
    assert_eq!(statement.segments()[4].id(), 102);
    assert_eq!(statement.id(), 103);
    assert_eq!(tables.counter, 104);
    let m = statement.get_position_marker().unwrap();
    assert_eq!((m.source_slice.start, m.source_slice.end), (0, 16));
    let dedent = statement.segments()[4].get_position_marker().unwrap();
    assert_eq!((dedent.source_slice.start, dedent.source_slice.end), (16, 16));
    // An untagged match is the tokens of its span.
    let plain = MatchResult::from_span(1, 3).apply(&segs, &mut tables, DialectKind::Ansi);
    assert_eq!(plain.len(), 2);
    assert_eq!(plain[1].raw(), "foo");
}
