use commit_spell::wordset::{list_holds, WordSet};

#[test]
fn new_set_is_empty() {
    let s = WordSet::new();
    assert!(s.is_empty());
    assert_eq!(s.len(), 0);
    assert!(!s.contains("a"));
    assert!(!s.contains(""));
}

#[test]
fn insert_says_whether_the_set_grew() {
    let mut s = WordSet::new();
    assert!(s.insert("a"));
    assert!(s.insert("b"));
    assert!(!s.insert("a"));
    assert!(s.insert("A"));
    assert!(s.insert(""));
    assert_eq!(s.len(), 4);
    assert!(!s.is_empty());
    assert!(s.contains("a"));
    assert!(s.contains("A"));
    assert!(s.contains(""));
    assert!(!s.contains("c"));
}

#[test]
fn from_list_holds_each_word_once() {
    let list = vec!["x".to_string(), "y".to_string(), "x".to_string()];
    let s = WordSet::from_list(&list);
    assert_eq!(s.len(), 2);
    assert!(s.contains("x"));
    assert!(s.contains("y"));
    assert!(!s.contains("z"));
    assert!(WordSet::from_list(&vec![]).is_empty());
}

#[test]
fn list_holds_compares_letter_for_letter() {
    let list = vec!["héllo".to_string(), "".to_string()];
    assert!(list_holds(&list, "héllo"));
    assert!(list_holds(&list, ""));
    assert!(!list_holds(&list, "hello"));
    assert!(!list_holds(&list, "héll"));
    assert!(!list_holds(&vec![], ""));
}
