use proc_macro2::{Delimiter, Group, TokenStream, TokenTree};
use startup_tree_core::levels::tree_to_levels;
use startup_tree_core::node::ExprNode;
use startup_tree_core::parse::{parse_tree, peek_comma, peek_fat_arrow, ValueGrammar};
use startup_tree_core::source::{branch_to_source, tree_to_source};
use startup_tree_core::startup_tree::StartupTree;
use startup_tree_core::rng::NodeRng;
use startup_tree_core::system_tree::{runtime_statements, SystemTree};
use startup_tree_core::tokens::{is_plain_ident_text, streams_equal};
use startup_tree_core::tree::{Branch, Tree};
use std::str::FromStr;

fn input(text: &str) -> TokenStream {
    TokenStream::from_str(text).expect("the text lexes")
}

fn exprs(text: &str) -> Tree<ExprNode> {
    parse_tree(&input(text), ValueGrammar::Expr).expect("parses")
}

fn level_texts(tree: &Tree<ExprNode>) -> Vec<Vec<String>> {
    tree_to_levels(tree)
        .iter()
        .map(|level| level.iter().map(|node| node.tokens().to_string()).collect())
        .collect()
}

fn count_values(tree: &Tree<ExprNode>) -> usize {
    tree.branches.iter().map(count_branch_values).sum()
}

fn count_branch_values(branch: &Branch<ExprNode>) -> usize {
    match branch {
        Branch::Leaf(_) => 1,
        Branch::Arm(_, child) => 1 + count_branch_values(child),
        Branch::Tree(_, sub_tree) => 1 + count_values(sub_tree),
    }
}

const INPUTS: [&str; 8] = [
    "sys",
    "a, b",
    "a => b",
    "a => b => c => d",
    "a => { b, c => d }",
    "a, b => c,",
    "s1a, s1b => { s2a => s3a, s2b => { s3b, s3c => s4a => s5a } }",
    "a => { b => { c => { d, e }, f }, g }, h => i => { j }",
];

#[test]
fn levels_hold_every_value_once() {
    for text in INPUTS {
        let tree = exprs(text);
        let levels = tree_to_levels(&tree);
        let in_levels: usize = levels.iter().map(Vec::len).sum();
        assert_eq!(in_levels, count_values(&tree), "{text}");
        assert!(levels.iter().all(|level| !level.is_empty()), "{text}");
    }
}

#[test]
fn level_zero_holds_the_values_that_start_the_branches() {
    for text in INPUTS {
        let tree = exprs(text);
        let levels = tree_to_levels(&tree);
        let roots: Vec<&ExprNode> = tree.branches.iter().map(Branch::node).collect();
        assert_eq!(levels[0], roots, "{text}");
    }
}

#[test]
fn levels_of_the_complex_tree() {
    let tree = exprs("s1a, s1b => { s2a => s3a, s2b => { s3b, s3c => s4a => s5a } }");
    assert_eq!(
        level_texts(&tree),
        [
            vec!["s1a", "s1b"],
            vec!["s2a", "s2b"],
            vec!["s3a", "s3b", "s3c"],
            vec!["s4a"],
            vec!["s5a"]
        ]
    );
}

#[test]
fn levels_of_small_trees() {
    assert_eq!(level_texts(&exprs("sys")), [vec!["sys"]]);
    assert_eq!(level_texts(&exprs("a, b, c")), [vec!["a", "b", "c"]]);
    assert_eq!(level_texts(&exprs("a => b => c => d")), [vec!["a"], vec!["b"], vec!["c"], vec!["d"]]);
    let empty: Tree<ExprNode> = Tree::from_branches(Vec::new(), false);
    assert!(tree_to_levels(&empty).is_empty());
}

#[test]
fn statements_are_as_many_as_values_and_in_order() {
    for text in INPUTS {
        let tree = SystemTree::parse(&input(text), &mut NodeRng::seeded(9)).expect("parses");
        let statements = runtime_statements(&tree.tree);
        assert_eq!(statements.len(), count_values(&exprs(text)), "{text}");
        for (index, statement) in statements.iter().enumerate() {
            if let Some(parent) = statement.parent {
                assert!(statements[..index].iter().any(|earlier| earlier.value == parent), "{text}");
            }
        }
    }
}

#[test]
fn trailing_commas_change_only_their_note() {
    let cases = [
        ("a", "a,"),
        ("a, b", "a, b,"),
        ("a => b => c", "a => b => c,"),
        ("a => { b, c => d }", "a => { b, c => d, },"),
        ("a => { b => { c } }, d", "a => { b => { c, }, }, d,"),
    ];
    for (plain, with_commas) in cases {
        let left = StartupTree::parse(&input(plain)).expect("parses");
        let right = StartupTree::parse(&input(with_commas)).expect("parses");
        assert!(!left.tree.trailing_comma);
        assert!(right.tree.trailing_comma);
        assert_eq!(left.tree.branches.len(), right.tree.branches.len());
        assert_ne!(left.tree, right.tree);
        assert_eq!(level_texts(&left.tree), level_texts(&right.tree));
        assert_eq!(left.to_tokens().to_string(), right.to_tokens().to_string());

        let left = SystemTree::parse(&input(plain), &mut NodeRng::seeded(1)).expect("parses");
        let right = SystemTree::parse(&input(with_commas), &mut NodeRng::seeded(1)).expect("parses");
        assert_eq!(left.to_tokens().to_string(), right.to_tokens().to_string());
    }
    let one = exprs("a => b");
    let other = exprs("a => b,");
    assert_eq!(one.branches, other.branches);
}

#[test]
fn only_one_trailing_comma_is_allowed() {
    let error = parse_tree(&input("a,,"), ValueGrammar::Path).expect_err("two commas");
    assert_eq!(error.message(), "expected identifier");
    let error = parse_tree(&input(","), ValueGrammar::Path).expect_err("no value");
    assert_eq!(error.message(), "expected identifier");
}

#[test]
fn what_is_written_parses_back() {
    for text in INPUTS {
        for grammar in [ValueGrammar::Expr, ValueGrammar::Path] {
            let tree = parse_tree(&input(text), grammar).expect("parses");
            let written = tree_to_source(&tree);
            assert_eq!(written.to_string(), input(text).to_string(), "{text}");
            let again = parse_tree(&written, grammar).expect("parses again");
            assert_eq!(again, tree, "{text}");
        }
    }
    let tree = exprs("a.b(c) => { d + 1, |e| e => f::<G>, },");
    assert_eq!(parse_tree(&tree_to_source(&tree), ValueGrammar::Expr).expect("parses"), tree);
    assert_eq!(
        tree_to_source(&tree).to_string(),
        input("a.b(c) => { d + 1, |e| e => f :: <G> , },").to_string()
    );
    assert_eq!(
        branch_to_source(&tree.branches[0]).to_string(),
        input("a.b(c) => { d + 1, |e| e => f :: <G> , }").to_string()
    );

    let numbers = parse_tree(&input("1 => 2, 3 => { 4, }"), ValueGrammar::IntLiteral).expect("parses");
    let again = parse_tree(&tree_to_source(&numbers), ValueGrammar::IntLiteral).expect("parses");
    assert_eq!(again, numbers);

    let empty: Tree<ExprNode> = Tree::from_branches(Vec::new(), true);
    assert!(tree_to_source(&empty).is_empty());
}

#[test]
fn a_value_in_braces_behind_an_arrow_is_read_as_a_sub_tree() {
    let block = ExprNode::new(input("{ b }"));
    let tree = Tree::from_branch(Branch::arm(ExprNode::new(input("a")), Branch::leaf(block)), false);
    let again = parse_tree(&tree_to_source(&tree), ValueGrammar::Expr).expect("parses");
    assert_ne!(again, tree);
    assert_eq!(again, exprs("a => { b }"));
    assert!(matches!(again.branches[0], Branch::Tree(_, _)));
}

#[test]
fn what_is_printed_is_not_what_is_parsed() {
    let tree = exprs("a");
    let printed = tree.display().to_text();
    assert_eq!(printed, "{\n    a\n}");
    let again = exprs(&printed);
    assert_ne!(again, tree);
    assert_eq!(level_texts(&again), [vec!["{ a }"]]);

    let printed = exprs("a, b => c").display().to_text();
    assert!(parse_tree(&input(&printed), ValueGrammar::Expr).is_err());
}

#[test]
fn branch_text_is_on_one_line() {
    let tree = exprs("a => b => c, d => { e }");
    assert_eq!(tree.branches[0].to_text(), "a => b => c");
    assert_eq!(tree.branches[1].to_text(), "d => {\n    e\n}");
}

#[test]
fn arrows_and_commas_are_found_by_their_tokens() {
    let tokens = input("a => b, c = > d == e");
    assert!(peek_fat_arrow(&tokens, 1));
    assert!(!peek_fat_arrow(&tokens, 0));
    assert!(!peek_fat_arrow(&tokens, 2));
    assert!(peek_comma(&tokens, 4));
    assert!(!peek_comma(&tokens, 3));
    // `= >` with a space between is no arrow, and neither is `==`.
    assert!(!peek_fat_arrow(&tokens, 6));
    assert!(!peek_fat_arrow(&tokens, 9));
    assert!(!peek_fat_arrow(&tokens, 100));
    assert!(!peek_comma(&tokens, 100));

    let error = parse_tree(&input("a = > b"), ValueGrammar::Path).expect_err("no arrow");
    assert_eq!(error.message(), "expected `,`");
}

#[test]
fn values_are_whole_expressions() {
    let tree = exprs("a::<B, C> => b.after(c), |x, y| x + y");
    assert_eq!(level_texts(&tree), [vec!["a :: < B , C >", "| x , y | x + y"], vec!["b . after (c)"]]);
    let tree = exprs("a == b => c");
    assert_eq!(level_texts(&tree), [vec!["a == b"], vec!["c"]]);
}

#[test]
fn a_group_without_delimiters_is_one_value() {
    let group = Group::new(Delimiter::None, input("a + b"));
    let mut tokens = TokenStream::new();
    tokens.extend([TokenTree::Group(group)]);
    tokens.extend(input("=> c"));
    let tree = parse_tree(&tokens, ValueGrammar::Expr).expect("parses");
    assert_eq!(tree_to_levels(&tree).len(), 2);
    assert_eq!(count_values(&tree), 2);
}

#[test]
fn streams_are_equal_by_their_tokens() {
    assert!(streams_equal(&input("a => { b, c }"), &input("a=>{b,c}")));
    assert!(!streams_equal(&input("a => { b, c }"), &input("a => { b, d }")));
    assert!(!streams_equal(&input("a => { b, c }"), &input("a => ( b, c )")));
    assert!(!streams_equal(&input("a"), &input("a,")));
    assert!(!streams_equal(&input("1"), &input("a")));
    assert!(!streams_equal(&input("\"a\""), &input("a")));
    assert!(streams_equal(&input(""), &TokenStream::new()));
}

#[test]
fn plain_identifiers() {
    for name in ["a", "_", "__sysout__abc123__a_b", "A9", "let"] {
        assert!(is_plain_ident_text(name), "{name}");
    }
    for name in ["", "9a", "a-b", "a b", "r#a", "é", "a::b"] {
        assert!(!is_plain_ident_text(name), "{name}");
    }
}

#[test]
fn every_error_has_its_input() {
    let cases = [
        ("", ValueGrammar::Expr, "tree may not be empty"),
        ("a => {}", ValueGrammar::Expr, "tree may not be empty"),
        ("a b", ValueGrammar::Expr, "expected `,`"),
        ("a =>", ValueGrammar::Expr, "unexpected end of input, expected an expression"),
        ("a =>", ValueGrammar::Path, "unexpected end of input, expected identifier"),
        ("1 =>", ValueGrammar::IntLiteral, "unexpected end of input, expected integer literal"),
        ("a", ValueGrammar::IntLiteral, "expected integer literal"),
        ("1", ValueGrammar::Path, "expected identifier"),
    ];
    for (text, grammar, message) in cases {
        match parse_tree(&input(text), grammar) {
            Ok(tree) => panic!("{text:?} parsed to {tree:?}"),
            Err(error) => assert_eq!(error.message(), message, "{text}"),
        }
    }
}
