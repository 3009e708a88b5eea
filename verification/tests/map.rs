use asn1_der::map::ordering;
use std::cmp::Ordering;

fn order(a: &str, b: &str) -> Ordering {
    ordering(&a.to_string(), &b.to_string())
}

#[test]
fn key_ordering() {
    assert_eq!(order("", ""), Ordering::Equal);
    assert_eq!(order("abc", "abc"), Ordering::Equal);
    // The first byte that differs decides
    assert_eq!(order("abc", "abd"), Ordering::Less);
    assert_eq!(order("abd", "abc"), Ordering::Greater);
    assert_eq!(order("b", "abc"), Ordering::Greater);
    assert_eq!(order("B", "a"), Ordering::Less);
    // A string that is the beginning of another comes first
    assert_eq!(order("", "a"), Ordering::Less);
    assert_eq!(order("ab", "abc"), Ordering::Less);
    assert_eq!(order("abc", "ab"), Ordering::Greater);
    // The bytes of the UTF-8 form are compared
    assert_eq!(order("z", "\u{e9}"), Ordering::Less);
    assert_eq!(order("\u{e9}", "\u{1f596}"), Ordering::Less);
}

#[test]
fn key_ordering_sorts() {
    let mut keys: Vec<String> =
        vec!["b", "abc", "", "ab", "a", "abd"].into_iter().map(|key| key.to_string()).collect();
    keys.sort_unstable_by(ordering);
    assert_eq!(keys, vec!["", "a", "ab", "abc", "abd", "b"]);
}
