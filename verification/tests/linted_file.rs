use std::ops::Range;

use sqruff_lib::linted_file::LintedFile;
use sqruff_lib::patches::FixPatch;
use sqruff_lib::templater::RawFileSlice;

/// Test _build_up_fixed_source_string. This is part of fix_string().
#[test]
fn test__linted_file__build_up_fixed_source_string() {
    let tests: Vec<(Vec<Range<usize>>, Vec<FixPatch>, &str, &str)> = vec![
        // Trivial example
        (vec![0..1], vec![], "a", "a"),
        // Simple replacement
        (
            vec![0..1, 1..2, 2..3],
            vec![FixPatch::new(
                1..2,
                "d".to_string(),
                "".to_string(),
                1..2,
                "b".to_string(),
                "b".to_string(),
            )],
            "abc",
            "adc",
        ),
        // Simple insertion
        (
            vec![0..1, 1..1, 1..2],
            vec![FixPatch::new(
                1..1,
                "b".to_string(),
                "".to_string(),
                1..1,
                "".to_string(),
                "".to_string(),
            )],
            "ac",
            "abc",
        ),
        // Simple deletion
        (
            vec![0..1, 1..2, 2..3],
            vec![FixPatch::new(
                1..2,
                "".to_string(),
                "".to_string(),
                1..2,
                "b".to_string(),
                "b".to_string(),
            )],
            "abc",
            "ac",
        ),
        // Illustrative templated example (although practically at this step, the routine
        // shouldn't care if it's templated).
        (
            vec![0..2, 2..7, 7..9],
            vec![FixPatch::new(
                2..3,
                "{{ b }}".to_string(),
                "".to_string(),
                2..7,
                "b".to_string(),
                "{{b}}".to_string(),
            )],
            "a {{b}} c",
            "a {{ b }} c",
        ),
    ];

    for (source_file_slices, source_patches, raw_source_string, expected_result) in tests {
        let result = LintedFile::build_up_fixed_source_string(
            &source_file_slices,
            &source_patches,
            raw_source_string,
        );

        assert_eq!(result, expected_result)
    }
}

/// Test _slice_source_file_using_patches.
///
///     This is part of fix_string().
#[test]
fn test__slice_source_file_using_patches() {
    let test_cases: Vec<(Vec<FixPatch>, Vec<RawFileSlice>, &str, Vec<Range<usize>>)> = vec![
        (
            // Trivial example.
            // No edits in a single character file. Slice should be one
            // character long.
            vec![],
            vec![],
            "a",
            vec![0..1],
        ),
        (
            // Simple replacement.
            // We've yielded a patch to change a single character. This means
            // we should get only slices for that character, and for the
            // unchanged file around it.
            vec![FixPatch::new(
                1..2,
                "d".to_string(),
                "".to_string(),
                1..2,
                "b".to_string(),
                "b".to_string(),
            )],
            vec![],
            "abc",
            vec![0..1, 1..2, 2..3],
        ),
        (
            // Templated no fixes.
            // A templated file, but with no fixes, so no subdivision of the
            // file is required and we should just get a single slice.
            vec![],
            vec![],
            "a {{ b }} c",
            vec![0..11],
        ),
        (
            // Templated example with a source-only slice.
            // A templated file, but with no fixes, so no subdivision of the
            // file is required and we should just get a single slice. While
            // there is handling for "source only" slices like template
            // comments, in this case no additional slicing is required
            // because no edits have been made.
            vec![],
            vec![RawFileSlice::new(
                "{# b #}".to_string(),
                "comment".to_string(),
                2,
                None,
                None,
            )],
            "a {# b #} c",
            vec![0..11],
        ),
        (
            // Templated fix example with a source-only slice.
            // We're making an edit adjacent to a source only slice. Edits
            // _before_ source only slices currently don't trigger additional
            // slicing. This is fine.
            vec![FixPatch::new(
                0..1,
                "a ".to_string(),
                "".to_string(),
                0..1,
                "a".to_string(),
                "a".to_string(),
            )],
            vec![RawFileSlice::new(
                "{# b #}".to_string(),
                "comment".to_string(),
                1,
                None,
                None,
            )],
            "a{# b #}c",
            vec![0..1, 1..9],
        ),
        (
            // Templated fix example with a source-only slice.
            // We've made an edit directly _after_ a source only slice
            // which should trigger the logic to ensure that the source
            // only slice isn't included in the source mapping of the
            // edit.
            vec![FixPatch::new(
                1..2,
                " c".to_string(),
                "".to_string(),
                8..9,
                "c".to_string(),
                "c".to_string(),
            )],
            vec![RawFileSlice::new(
                "{# b #}".to_string(),
                "comment".to_string(),
                1,
                None,
                None,
            )],
            "a{# b #}cc",
            vec![0..1, 1..8, 8..9, 9..10],
        ),
        (
            // Templated example with a source-only slice.
            // Here we're making the fix to the templated slice. This
            // checks that we don't duplicate or fumble the slice
            // generation when we're explicitly trying to edit the source.
            vec![FixPatch::new(
                2..2,
                "{# fixed #}".to_string(),
                "".to_string(),
                2..9,
                "".to_string(),
                "".to_string(),
            )],
            vec![RawFileSlice::new(
                "{# b #}".to_string(),
                "comment".to_string(),
                2,
                None,
                None,
            )],
            "a {# b #} c",
            vec![0..2, 2..9, 9..11],
        ),
        (
            // Illustrate potential templating bug (case from JJ01).
            // In this case we have fixes for all our tempolated sections
            // and they are all close to each other and so may be either
            // skipped or duplicated if the logic is not precise.
            vec![
                FixPatch::new(
                    14..14,
                    "{%+ if true -%}".to_string(),
                    "source".to_string(),
                    14..27,
                    "".to_string(),
                    "{%+if true-%}".to_string(),
                ),
                FixPatch::new(
                    14..14,
                    "{{ ref('foo') }}".to_string(),
                    "source".to_string(),
                    28..42,
                    "".to_string(),
                    "{{ref('foo')}}".to_string(),
                ),
                FixPatch::new(
                    17..17,
                    "{%- endif %}".to_string(),
                    "source".to_string(),
                    43..53,
                    "".to_string(),
                    "{%-endif%}".to_string(),
                ),
            ],
            vec![
                RawFileSlice::new(
                    "{%+if true-%}".to_string(),
                    "block_start".to_string(),
                    14,
                    None,
                    None,
                ),
                RawFileSlice::new(
                    "{%-endif%}".to_string(),
                    "block_end".to_string(),
                    43,
                    None,
                    None,
                ),
            ],
            "SELECT 1 from {%+if true-%} {{ref('foo')}} {%-endif%}",
            vec![0..14, 14..27, 27..28, 28..42, 42..43, 43..53],
        ),
    ];

    for (source_patches, source_only_slices, raw_source_string, expected_result) in test_cases {
        let result = LintedFile::slice_source_file_using_patches(
            source_patches,
            source_only_slices,
            raw_source_string,
        );
        assert_eq!(result, expected_result);
    }
}

#[test]
fn what_no_patch_touches_stays_where_a_comment_of_the_template_stands() {
    let source = "a{# b #}cc";
    let patch = || {
        FixPatch::new(8..9, " c".to_string(), "".to_string(), 8..9, "c".to_string(), "c".to_string())
    };
    let comment = RawFileSlice::new("{# b #}".to_string(), "comment".to_string(), 1, None, None);
    let slices = LintedFile::slice_source_file_using_patches(vec![patch()], vec![comment], source);
    assert_eq!(slices, vec![0..1, 1..8, 8..9, 9..10]);
    let fixed = LintedFile::build_up_fixed_source_string(&slices, &[patch()], source);
    assert_eq!(fixed, "a{# b #} cc");
    assert_eq!(&fixed[..8], &source[..8]);
    assert_eq!(&fixed[fixed.len() - 1..], &source[9..]);
}
