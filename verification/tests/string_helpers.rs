use sqruff_lib::string_helpers::{curtail_string, find_all, frame_msg};

#[test]
fn test_find_all() {
    vec![
        ("", "", vec![]),
        ("a", "a", vec![0]),
        ("foobar", "o", vec![1, 2]),
        ("bar bar bar bar", "bar", vec![0, 4, 8, 12]),
    ]
    .into_iter()
    .for_each(|(in_str, substr, expected)| assert_eq!(expected, find_all(substr, in_str)));
}

#[test]
fn find_all_does_not_overlap() {
    assert_eq!(find_all("aa", "aaaaa"), vec![0, 2]);
    assert_eq!(find_all("abc", "ab"), Vec::<usize>::new());
}

#[test]
fn frame_msg_covers_five_lines() {
    assert_eq!(frame_msg("hello"), "\n###\n#\n# hello\n#\n###");
}

#[test]
fn curtail_string_cuts_long_text_only() {
    assert_eq!(curtail_string("abcdef", 3), "abc...");
    assert_eq!(curtail_string("abc", 3), "abc");
    assert_eq!(curtail_string("", 0), "");
}
