use cmdirstat::sort::{compare_keys, sort_order, SortKey};
use cmdirstat::text::{chars_of, compare_chars, contains_chars, Order};

fn chars(s: &str) -> Vec<char> {
    s.chars().collect()
}

#[test]
fn chars_of_lists_characters() {
    assert_eq!(chars_of("hé!"), vec!['h', 'é', '!']);
}

#[test]
fn compare_chars_is_lexicographic() {
    assert_eq!(compare_chars(&chars("abc"), &chars("abd")), Order::Less);
    assert_eq!(compare_chars(&chars("ab"), &chars("abc")), Order::Less);
    assert_eq!(compare_chars(&chars("b"), &chars("abc")), Order::Greater);
    assert_eq!(compare_chars(&chars("abc"), &chars("abc")), Order::Equal);
    assert_eq!(compare_chars(&chars("z"), &chars("é")), Order::Less);
    // Same order as the byte order of the strings.
    assert_eq!("z" < "é", true);
}

#[test]
fn contains_finds_runs() {
    assert!(contains_chars(&chars("hello"), &chars("ell")));
    assert!(contains_chars(&chars("hello"), &chars("")));
    assert!(contains_chars(&chars("hello"), &chars("hello")));
    assert!(!contains_chars(&chars("hello"), &chars("hellos")));
    assert!(!contains_chars(&chars("hello"), &chars("lol")));
}

#[test]
fn sort_order_is_stable_in_both_directions() {
    let keys = vec![SortKey::Number(3), SortKey::Number(1), SortKey::Number(3), SortKey::Number(2)];
    assert_eq!(sort_order(&keys, false), vec![1, 3, 0, 2]);
    assert_eq!(sort_order(&keys, true), vec![0, 2, 3, 1]);
    assert!(sort_order(&Vec::new(), false).is_empty());
}

#[test]
fn sort_order_of_texts() {
    let keys = vec![SortKey::Text(chars("pear")), SortKey::Text(chars("apple")), SortKey::Text(chars("fig"))];
    assert_eq!(sort_order(&keys, false), vec![1, 2, 0]);
    assert_eq!(compare_keys(&SortKey::Number(-5), &SortKey::Number(2)), Order::Less);
}
