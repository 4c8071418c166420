use envy_rs::substring::longest_common;

#[test]
fn longest_common_finds_the_longest_block() {
    assert_eq!(longest_common("abcdef", "zcdez"), "cde");
    assert_eq!(longest_common("GeeksforGeeks", "GeeksQuiz"), "Geeks");
    assert_eq!(longest_common("program", "program"), "program");
}

#[test]
fn longest_common_of_disjoint_strings_is_empty() {
    assert_eq!(longest_common("abc", "xyz"), "");
    assert_eq!(longest_common("", "abc"), "");
    assert_eq!(longest_common("abc", ""), "");
}
