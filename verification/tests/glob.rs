use envy_rs::dictionary::Dictionary;
use envy_rs::glob::is_match;

#[test]
fn wildcard_star_and_question() {
    assert!(is_match("a*b", "aXXXb"));
    assert!(!is_match("a*b", "a"));
    assert!(is_match("a?c", "abc"));
    assert!(!is_match("a?c", "ac"));
}

#[test]
fn literal_expression_round_trip() {
    // a wildcard-free expression matches exactly the string it spells
    assert!(is_match("cat", "cat"));
    assert!(is_match("", ""));
    assert!(!is_match("cat", "cab"));
    assert!(!is_match("cat", "cats"));
    assert!(!is_match("cat", "ca"));
}

#[test]
fn star_needs_backtracking() {
    assert!(is_match("a*bc", "aXbXbc"));
    assert!(is_match("*", ""));
    assert!(is_match("*", "anything"));
    assert!(!is_match("?", ""));
    assert!(is_match("c*t*", "cat"));
    assert!(!is_match("*a*b*", "ba"));
    assert!(is_match("**a", "a"));
}

#[test]
fn oracle_accepts_only_unique_matches() {
    let mut env = Dictionary::new();
    assert!(env.insert("V1".to_string(), vec!["cat".to_string(), "car".to_string()]));
    assert!(env.insert("V2".to_string(), vec!["dog".to_string()]));
    // c?t matches only "cat", which is the needle: resolved to its value
    assert_eq!(envy_rs::glob::matches("cat", "c?t", &env), Some("V1".to_string()));
    // c* matches both "cat" and "car": ambiguous, resolved to nothing
    assert_eq!(envy_rs::glob::matches("cat", "c*", &env), None);
}

#[test]
fn oracle_rejects_false_positives() {
    // a unique match that is some other identifier must be rejected
    let mut env = Dictionary::new();
    assert!(env.insert("V1".to_string(), vec!["cat".to_string()]));
    assert!(env.insert("V2".to_string(), vec!["dog".to_string()]));
    assert_eq!(envy_rs::glob::matches("dog", "c?t", &env), None);
}

#[test]
fn oracle_on_empty_dictionary() {
    let env = Dictionary::new();
    assert_eq!(envy_rs::glob::matches("cat", "c?t", &env), None);
}

#[test]
fn dictionary_keys_stay_unique() {
    let mut env = Dictionary::new();
    assert!(env.insert("V1".to_string(), vec!["cat".to_string()]));
    assert!(!env.insert("V1".to_string(), vec!["dog".to_string()]));
    assert_eq!(env.len(), 1);
}
