use tiny_regex::ast;
use tiny_regex::engine::naive;
use tiny_regex::engine::naive::{is_prefix_of, match_prefix};

#[test]
fn prefix_test() {
    assert!(is_prefix_of("s_", "s_str"));
    assert!(is_prefix_of("s_", "s_"));
    assert!(!is_prefix_of("s_", "n_str"));
    assert!(!is_prefix_of("s_", "s"));
}

#[test]
fn naive_literal_test() {
    assert!(naive::test(&ast::literal("test"), "test"));
    assert!(!naive::test(&ast::literal("test"), ""));
    assert!(!naive::test(&ast::literal("test"), "test1"));
    assert!(!naive::test(&ast::literal("test"), "tes"));
}

#[test]
fn naive_or_test() {
    let node = &ast::or(vec![ast::literal("a"), ast::literal("b")]);
    assert!(naive::test(node, "a"));
    assert!(naive::test(node, "b"));
    assert!(!naive::test(node, "c"));
    assert!(!naive::test(node, "aa"));
    assert!(!naive::test(node, "bb"));
    assert!(!naive::test(node, "ab"));
}

#[test]
fn concat_test() {
    let node = &ast::concat(vec![ast::literal("a"), ast::literal("b")]);
    assert!(naive::test(node, "ab"));
    assert!(!naive::test(node, "abb"));
    assert!(!naive::test(node, "aab"));
    assert!(!naive::test(node, "a"));
    assert!(!naive::test(node, "b"));
}

#[test]
fn naive_repeat_test() {
    let node = &ast::repeat(ast::literal("a"));
    assert!(naive::test(node, ""));
    assert!(naive::test(node, "a"));
    assert!(naive::test(node, "aa"));
    assert!(naive::test(node, "aaa"));
    assert!(!naive::test(node, "ba"));
    assert!(!naive::test(node, "ab"));
}

#[test]
fn naive_match_prefix_leaves_rest() {
    let node = ast::concat(vec![ast::literal("ab"), ast::repeat(ast::literal("c"))]);
    assert_eq!(match_prefix(&node, "abccd"), Ok("d"));
    assert_eq!(match_prefix(&node, "xabc"), Err("xabc"));
    assert_eq!(match_prefix(&ast::literal("é"), "éa"), Ok("a"));
}

#[test]
fn naive_empty_alternation_and_concatenation() {
    assert!(!naive::test(&ast::or(vec![]), ""));
    assert!(!naive::test(&ast::or(vec![]), "a"));
    assert!(naive::test(&ast::concat(vec![]), ""));
    assert!(!naive::test(&ast::concat(vec![]), "a"));
}

#[test]
fn naive_repeat_of_empty_terminates() {
    let node = ast::repeat(ast::concat(vec![]));
    assert!(naive::test(&node, ""));
    assert!(!naive::test(&node, "a"));
    let nested = ast::repeat(ast::repeat(ast::literal("a")));
    assert!(naive::test(&nested, "aaa"));
    assert!(!naive::test(&nested, "aab"));
}

#[test]
fn naive_does_not_backtrack_into_repetition() {
    let node = ast::concat(vec![ast::repeat(ast::literal("a")), ast::literal("a")]);
    assert!(!naive::test(&node, "aa"));
}
