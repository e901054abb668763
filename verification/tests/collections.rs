use schema_infer::dict::Dict;
use schema_infer::text::{bytes_equal, bytes_precede, precedes, same_text};

#[test]
fn a_new_dict_is_empty() {
    let d: Dict<u8> = Dict::new();
    assert!(d.is_empty());
    assert_eq!(d.len(), 0);
    assert_eq!(d.get("a"), None);
    assert!(!d.contains_key("a"));
    assert_eq!(d.position("a"), None);
}

#[test]
fn insert_stores_and_replaces() {
    let mut d = Dict::new();
    assert_eq!(d.insert("a".to_string(), 1), None);
    assert_eq!(d.insert("b".to_string(), 2), None);
    assert_eq!(d.insert("a".to_string(), 3), Some(1));
    assert_eq!(d.len(), 2);
    assert!(!d.is_empty());
    assert_eq!(d.get("a"), Some(&3));
    assert_eq!(d.get("b"), Some(&2));
    assert_eq!(d.get("c"), None);
    assert!(d.contains_key("b"));
}

#[test]
fn entries_keep_the_order_in_which_names_came() {
    let mut d = Dict::new();
    d.insert("x".to_string(), 10);
    d.insert("y".to_string(), 20);
    d.insert("x".to_string(), 30);
    assert_eq!(d.len(), 2);
    assert_eq!(d.position("x"), Some(0));
    assert_eq!(d.position("y"), Some(1));
    let (name, value) = d.entry_at(0);
    assert_eq!(name, "x");
    assert_eq!(*value, 30);
    let (name, value) = d.entry_at(1);
    assert_eq!(name, "y");
    assert_eq!(*value, 20);
}

#[test]
fn remove_takes_the_value_out() {
    let mut d = Dict::new();
    d.insert("a".to_string(), 1);
    d.insert("b".to_string(), 2);
    d.insert("c".to_string(), 3);
    assert_eq!(d.remove("a"), Some(1));
    assert_eq!(d.remove("a"), None);
    assert_eq!(d.remove("zzz"), None);
    assert_eq!(d.len(), 2);
    assert_eq!(d.get("b"), Some(&2));
    assert_eq!(d.get("c"), Some(&3));
    assert_eq!(d.get("a"), None);
}

#[test]
fn pop_takes_the_last_entry_out() {
    let mut d = Dict::new();
    d.insert("a".to_string(), 1);
    d.insert("b".to_string(), 2);
    assert_eq!(d.pop(), Some(("b".to_string(), 2)));
    assert_eq!(d.pop(), Some(("a".to_string(), 1)));
    assert_eq!(d.pop(), None);
    assert!(d.is_empty());
}

#[test]
fn names_are_compared_by_their_characters() {
    let mut d = Dict::new();
    d.insert("é".to_string(), 1);
    d.insert("e\u{301}".to_string(), 2);
    d.insert("E".to_string(), 3);
    assert_eq!(d.len(), 3);
    assert_eq!(d.get("é"), Some(&1));
    assert_eq!(d.get("e\u{301}"), Some(&2));
    assert_eq!(d.get("e"), None);
}

#[test]
fn same_text_decides_equality() {
    assert!(same_text("", ""));
    assert!(same_text("abc", "abc"));
    assert!(!same_text("abc", "abd"));
    assert!(!same_text("abc", "ab"));
    assert!(!same_text("", "a"));
    assert!(same_text("héllo", "héllo"));
    assert!(bytes_equal(b"xy", b"xy"));
    assert!(!bytes_equal(b"xy", b"xz"));
}

#[test]
fn precedes_is_the_lexicographic_order() {
    assert!(precedes("", ""));
    assert!(precedes("", "a"));
    assert!(!precedes("a", ""));
    assert!(precedes("a", "b"));
    assert!(!precedes("b", "a"));
    assert!(precedes("ab", "abc"));
    assert!(!precedes("abc", "ab"));
    assert!(precedes("abc", "abd"));
    assert!(precedes("Z", "a"));
    assert!(precedes("a", "é"));
    assert!(precedes("same", "same"));
    assert!(bytes_precede(&[1, 2], &[1, 3]));
    assert!(!bytes_precede(&[2], &[1, 255]));
}

#[test]
fn precedes_agrees_with_the_order_of_str() {
    let words = ["", "a", "ab", "b", "ba", "é", "z", "Z", "日本", "a\u{10FFFF}"];
    for x in words.iter() {
        for y in words.iter() {
            assert_eq!(precedes(x, y), x <= y, "{:?} and {:?}", x, y);
        }
    }
}
