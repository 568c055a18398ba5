use tiny_regex::ast;
use tiny_regex::ast::Node;
use tiny_regex::engine::naive;
use tiny_regex::engine::vm;
use tiny_regex::engine::vm::{compile, OpCode, Program};

fn run(node: &Node, s: &str) -> bool {
    vm::test(&Program::new(node), s)
}

#[test]
fn vm_literal_test() {
    let node = ast::literal("abc");
    let program = Program::new(&node);
    assert!(vm::test(&program, "abc"));
    assert!(!vm::test(&program, "ab"));
    assert!(!vm::test(&program, "abcd"));
}

#[test]
fn vm_repeat_test() {
    let node = ast::repeat(ast::literal("a"));
    let program = Program::new(&node);
    assert!(vm::test(&program, ""));
    assert!(vm::test(&program, "a"));
    assert!(vm::test(&program, "aa"));
    assert!(!vm::test(&program, "ab"));
    assert!(!vm::test(&program, "aab"));
    assert!(!vm::test(&program, "baa"));
}

#[test]
fn vm_or_test() {
    let node = ast::or(vec![ast::literal("a"), ast::literal("b"), ast::literal("c")]);
    let program = Program::new(&node);
    assert!(!vm::test(&program, ""));
    assert!(vm::test(&program, "a"));
    assert!(vm::test(&program, "b"));
    assert!(vm::test(&program, "c"));
    assert!(!vm::test(&program, "d"));
}

#[test]
fn vm_literal_exactness() {
    let node = ast::literal("test");
    for s in ["test", "", "tes", "test1", "tast", "ttest"] {
        assert_eq!(run(&node, s), s == "test");
    }
}

#[test]
fn vm_alternation_of_two() {
    let node = ast::or(vec![ast::literal("a"), ast::literal("b")]);
    assert!(run(&node, "a"));
    assert!(run(&node, "b"));
    for s in ["", "c", "aa", "ab"] {
        assert!(!run(&node, s));
    }
}

#[test]
fn vm_concatenation_of_two() {
    let node = ast::concat(vec![ast::literal("a"), ast::literal("b")]);
    assert!(run(&node, "ab"));
    for s in ["a", "b", "abb", "aab", ""] {
        assert!(!run(&node, s));
    }
}

#[test]
fn vm_star_accepts_every_count() {
    let node = ast::repeat(ast::literal("a"));
    let mut s = String::new();
    for _ in 0..20 {
        assert!(run(&node, &s));
        s.push('a');
    }
    assert!(!run(&node, "ab"));
    assert!(!run(&node, "ba"));
}

fn abc_star() -> Node {
    ast::repeat(ast::or(vec![ast::literal("a"), ast::literal("b"), ast::literal("c")]))
}

#[test]
fn vm_nested_composition() {
    let node = ast::repeat(ast::concat(vec![abc_star(), abc_star()]));
    assert!(run(&node, "aaaabbbb"));
    assert!(!run(&node, "aaaXbbbb"));
    assert!(naive::test(&node, "aaaabbbb"));
    assert!(!naive::test(&node, "aaaXbbbb"));
    let flat = ast::concat(vec![abc_star(), abc_star()]);
    assert!(run(&flat, "aaaabbbb"));
    assert!(naive::test(&flat, "aaaabbbb"));
}

#[test]
fn vm_agrees_with_naive_on_samples() {
    let patterns = vec![
        ast::literal("ab"),
        ast::or(vec![ast::literal("a"), ast::literal("bc")]),
        ast::concat(vec![ast::literal("a"), ast::repeat(ast::literal("b"))]),
        abc_star(),
        ast::repeat(ast::concat(vec![ast::literal("a"), ast::literal("b")])),
    ];
    let subjects = ["", "a", "ab", "abb", "bc", "abab", "ba", "abc", "cab"];
    for p in &patterns {
        for s in subjects {
            assert_eq!(run(p, s), naive::test(p, s));
        }
    }
}

#[test]
fn vm_backtracks_into_repetition() {
    let node = ast::concat(vec![ast::repeat(ast::literal("a")), ast::literal("a")]);
    assert!(run(&node, "aa"));
    assert!(!run(&node, ""));
    let alt = ast::concat(vec![ast::or(vec![ast::literal("a"), ast::literal("ab")]), ast::literal("b")]);
    assert!(run(&alt, "abb"));
    assert!(run(&alt, "ab"));
}

#[test]
fn vm_compiling_twice_behaves_the_same() {
    let node = ast::repeat(ast::concat(vec![abc_star(), ast::literal("d")]));
    let first = Program::new(&node);
    let second = Program::new(&node);
    for s in ["", "d", "abcd", "abcdd", "abc", "dx"] {
        assert_eq!(vm::test(&first, s), vm::test(&second, s));
    }
}

#[test]
fn vm_adversarial_subjects() {
    let node = ast::concat(vec![
        ast::repeat(ast::or(vec![ast::literal("aa"), ast::literal("a")])),
        ast::literal("aaab"),
    ]);
    for s in ["", "a", "aa", "aaa", "aaaa", "aaaaaaaaaaaaaaaaaaaa", "aaab", "aaaab"] {
        assert_eq!(run(&node, s), s.ends_with("aaab") && s.chars().all(|c| c == 'a' || c == 'b') && s.matches('b').count() == 1);
    }
}

#[test]
fn vm_degenerate_patterns() {
    assert!(!run(&ast::or(vec![]), ""));
    assert!(!run(&ast::or(vec![]), "a"));
    assert!(run(&ast::concat(vec![]), ""));
    assert!(!run(&ast::concat(vec![]), "a"));
    assert!(run(&ast::literal(""), ""));
    assert!(!run(&ast::literal(""), "a"));
}

#[test]
fn vm_repeat_of_empty_terminates() {
    let node = ast::repeat(ast::concat(vec![]));
    assert!(run(&node, ""));
    assert!(!run(&node, "a"));
    let nested = ast::repeat(ast::repeat(ast::literal("a")));
    assert!(run(&nested, "aaa"));
    assert!(!run(&nested, "aab"));
}

#[test]
fn vm_unicode_literal() {
    assert!(run(&ast::literal("héllo"), "héllo"));
    assert!(!run(&ast::literal("héllo"), "hello"));
}

#[test]
fn compile_emits_relative_offsets() {
    let lit = compile(&ast::literal("ab"));
    assert_eq!(lit.len(), 1);
    assert!(matches!(&lit[0], OpCode::Consume(c) if c == &vec!['a', 'b']));

    let rep = compile(&ast::repeat(ast::literal("a")));
    assert_eq!(rep.len(), 3);
    assert!(matches!(rep[0], OpCode::Fork(3)));
    assert!(matches!(&rep[1], OpCode::Consume(c) if c == &vec!['a']));
    assert!(matches!(rep[2], OpCode::Jump(-2)));

    let alt = compile(&ast::or(vec![ast::literal("a"), ast::literal("b")]));
    assert_eq!(alt.len(), 7);
    assert!(matches!(alt[0], OpCode::Fork(3)));
    assert!(matches!(alt[2], OpCode::Jump(5)));
    assert!(matches!(alt[3], OpCode::Fork(3)));
    assert!(matches!(alt[5], OpCode::Jump(2)));
    assert!(matches!(alt[6], OpCode::Fail));

    let cat = compile(&ast::concat(vec![ast::literal("a"), ast::literal("b")]));
    assert_eq!(cat.len(), 2);
}

#[test]
fn program_codes_match_compile() {
    let node = ast::or(vec![ast::literal("ab"), ast::repeat(ast::literal("c"))]);
    let program = Program::new(&node);
    let direct = compile(&node);
    assert_eq!(program.codes().len(), direct.len());
    assert_eq!(format!("{:?}", program.codes()), format!("{:?}", direct));
}

#[test]
fn vm_cloned_pattern_compiles_the_same() {
    let node = ast::repeat(ast::concat(vec![abc_star(), ast::literal("d")]));
    let copy = node.clone();
    let first = Program::new(&node);
    let second = Program::new(&copy);
    assert_eq!(format!("{:?}", first), format!("{:?}", second));
    for s in ["", "d", "abcd", "abcdd", "abc", "dx"] {
        assert_eq!(vm::test(&first, s), vm::test(&second, s));
    }
}
