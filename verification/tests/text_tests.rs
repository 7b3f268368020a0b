use mediatree::text::{chars_of, contains_text, decimal_text, find_last, text_eq};

#[test]
fn chars_of_keeps_every_character() {
    assert_eq!(chars_of("aé/b"), vec!['a', 'é', '/', 'b']);
    assert_eq!(chars_of(""), Vec::<char>::new());
}

#[test]
fn text_eq_is_equality() {
    assert!(text_eq("abc", "abc"));
    assert!(text_eq("", ""));
    assert!(!text_eq("abc", "abd"));
    assert!(!text_eq("abc", "ab"));
}

#[test]
fn find_last_finds_the_last_one() {
    let s = chars_of("a/b/c");
    assert_eq!(find_last(&s, '/', 5), Some(3));
    assert_eq!(find_last(&s, '/', 3), Some(1));
    assert_eq!(find_last(&s, '/', 1), None);
    assert_eq!(find_last(&s, 'x', 5), None);
    assert_eq!(find_last(&s, 'c', 5), Some(4));
    assert_eq!(find_last(&s, '/', 0), None);
    assert_eq!(find_last(&s, '/', 6), None);
}

#[test]
fn contains_text_agrees_with_std() {
    let hays = ["", "a", "Zone.Identifier", "x.mp4:Zone.Identifier", "Zone.Identifie", "aaab", "abab"];
    let needles = ["", "a", "Zone.Identifier", "ab", "b", "aab", "bab", "abc"];
    for h in hays {
        for n in needles {
            assert_eq!(contains_text(h, n), h.contains(n), "{h:?} {n:?}");
        }
    }
}

#[test]
fn decimal_text_agrees_with_std() {
    for n in [0u64, 1, 9, 10, 11, 99, 100, 101, 12345, 1 << 32, u64::MAX - 1, u64::MAX] {
        assert_eq!(decimal_text(n), n.to_string());
    }
}
