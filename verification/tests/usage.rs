use daw::usage::estimate_tokens;

#[test]
fn token_estimate_counts() {
    assert_eq!(estimate_tokens(""), 0);
    assert_eq!(estimate_tokens("a"), 1);
    assert_eq!(estimate_tokens("abcd"), 1);
    assert_eq!(estimate_tokens("abcde"), 2);
    assert_eq!(estimate_tokens("成交总额"), 4);
    assert_eq!(estimate_tokens("gmv 成交"), 3);
    assert_eq!(estimate_tokens(&"x".repeat(400)), 100);
}
