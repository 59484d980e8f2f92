use requires_status::lint::locator;
use requires_status::order::{insert_sorted, join, less_than};
use requires_status::text::{decimal, is_space_char, item_bounds};

fn strings(v: &[&str]) -> Vec<String> {
    v.iter().map(|s| s.to_string()).collect()
}

#[test]
fn decimal_and_locator() {
    assert_eq!(decimal(0), "0");
    assert_eq!(decimal(305), "305");
    assert_eq!(decimal(u64::MAX), "18446744073709551615");
    assert_eq!(locator(7), "eip-7.md");
    assert_eq!(locator(1559), "eip-1559.md");
}

#[test]
fn item_bounds_follow_commas() {
    assert_eq!(item_bounds(""), vec![(0, 0)]);
    assert_eq!(item_bounds(" 1, 2"), vec![(0, 2), (3, 5)]);
    assert_eq!(item_bounds(",,"), vec![(0, 0), (1, 1), (2, 2)]);
    assert_eq!(item_bounds("é,ü1"), vec![(0, 1), (2, 4)]);
}

#[test]
fn order_is_by_character() {
    let s = |x: &str| x.to_string();
    assert!(less_than(&s("B"), &s("a")));
    assert!(less_than(&s("a"), &s("ab")));
    assert!(!less_than(&s("ab"), &s("a")));
    assert!(!less_than(&s("a"), &s("a")));
    assert!(less_than(&s(""), &s("a")));
    assert!(less_than(&s("z"), &s("é")));
}

#[test]
fn insert_keeps_sorted_and_distinct() {
    let mut v: Vec<String> = Vec::new();
    for x in ["Review", "Draft", "Final", "Draft", "Last Call"] {
        insert_sorted(&mut v, x.to_string());
    }
    assert_eq!(v, strings(&["Draft", "Final", "Last Call", "Review"]));
}

#[test]
fn join_separates_items() {
    assert_eq!(join(&strings(&[]), "`, `"), "");
    assert_eq!(join(&strings(&["Draft"]), "`, `"), "Draft");
    assert_eq!(join(&strings(&["Draft", "Review", "Final"]), ", "), "Draft, Review, Final");
}

#[test]
fn whitespace_matches_std() {
    for c in ['\t', '\n', '\u{0B}', '\u{0C}', '\r', ' ', '\u{85}', '\u{A0}', '\u{1680}', '\u{2000}',
        '\u{2005}', '\u{200A}', '\u{2028}', '\u{2029}', '\u{202F}', '\u{205F}', '\u{3000}', 'a',
        '\u{200B}', '\u{180E}', '\u{FEFF}', '0', '\u{1F}'] {
        assert_eq!(is_space_char(c), c.is_whitespace(), "{:?}", c);
    }
}
