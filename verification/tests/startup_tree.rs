use proc_macro2::TokenStream;
use startup_tree_core::node::{ExprNode, HostApi};
use startup_tree_core::parse::{parse_tree, ParseError, ValueGrammar};
use startup_tree_core::startup_tree::StartupTree;
use startup_tree_core::tree::{Branch, Tree};
use std::str::FromStr;

fn tokens(text: &str) -> TokenStream {
    TokenStream::from_str(text).expect("the text lexes")
}

fn node(text: &str) -> ExprNode {
    ExprNode::new(tokens(text))
}

fn value(text: &str) -> Branch<ExprNode> {
    Branch::leaf(node(text))
}

fn list(branches: Vec<Branch<ExprNode>>) -> Tree<ExprNode> {
    Tree::from_branches(branches, false)
}

fn read(text: &str) -> Result<Tree<ExprNode>, ParseError> {
    parse_tree(&tokens(text), ValueGrammar::Expr)
}

fn check_result(actual: &Result<Tree<ExprNode>, ParseError>, expected: &Result<Tree<ExprNode>, &str>) {
    match (actual, expected) {
        (Ok(actual_value), Ok(expected_value)) => assert_eq!(actual_value, expected_value),
        (Err(actual_error), Err(expected_message)) => {
            assert_eq!(actual_error.message(), *expected_message)
        }
        (Ok(actual_value), Err(expected_message)) => {
            panic!("expected the error {expected_message:?}, got {actual_value:?}")
        }
        (Err(actual_error), Ok(expected_value)) => {
            panic!("expected {expected_value:?}, got the error {:?}", actual_error.message())
        }
    }
}

const COMPLEX_TREE: &str = "
    s1a,
    s1b => {
        s2a => s3a,
        s2b => {
            s3b,
            s3c => s4a => s5a,
        },
    },
";

fn expected_levels(trait_name: &str) -> String {
    let call = format!("::bevy::prelude::{trait_name}::into_configs");
    tokens(&format!(
        "vec![
            ::std::vec![
                {call}(s1a),
                {call}(s1b)
            ],
            ::std::vec![
                {call}(s2a),
                {call}(s2b)
            ],
            ::std::vec![
                {call}(s3a),
                {call}(s3b),
                {call}(s3c)
            ],
            ::std::vec![{call}(s4a)],
            ::std::vec![{call}(s5a)]
        ]"
    ))
    .to_string()
}

#[test]
fn startup_tree_parse_tree_with_one_node() {
    let tree = read("sys").expect("parses");
    assert_eq!(tree, Tree::from_node(node("sys"), false));
}

#[test]
fn startup_tree_parse_tree_with_long_branch() {
    let tree = read("sys1 => sys2 => sys3").expect("parses");
    let expected = Tree::from_branch(
        Branch::arm(node("sys1"), Branch::arm(node("sys2"), value("sys3"))),
        false,
    );
    assert_eq!(tree, expected);
}

#[test]
fn startup_tree_parse_complex_tree() {
    let expected = list(vec![
        value("s1a"),
        Branch::tree(
            node("s1b"),
            list(vec![
                Branch::arm(node("s2a"), value("s3a")),
                Branch::tree(node("s2b"), list(vec![value("s3b"), value("s3c")])),
            ]),
        ),
    ]);

    let actual = read(
        "s1a,
        s1b => {
            s2a => s3a,
            s2b => {
                s3b,
                s3c
            }
        }",
    )
    .expect("parses");

    assert_eq!(actual, expected);
}

#[test]
fn startup_tree_parse_tree_nodes_and_commas() {
    let cases = [
        ("sys1", Ok(Tree::from_node(node("sys1"), false))),
        ("sys1.func(param)", Ok(Tree::from_branch(value("sys1.func(param)"), false))),
        ("sys2,", Ok(Tree::from_branch(value("sys2"), true))),
        ("sys3 =>", Err("unexpected end of input, expected an expression")),
        ("sys4 => child", Ok(Tree::from_branch(Branch::arm(node("sys4"), value("child")), false))),
        (
            "sys4.func(param) => child",
            Ok(Tree::from_branch(Branch::arm(node("sys4.func(param)"), value("child")), false)),
        ),
        ("sys5 => child,", Ok(Tree::from_branch(Branch::arm(node("sys5"), value("child")), true))),
        (
            "sys6 => child1 => child2",
            Ok(Tree::from_branch(
                Branch::arm(node("sys6"), Branch::arm(node("child1"), value("child2"))),
                false,
            )),
        ),
        (
            "sys7 => child1 => child2,",
            Ok(Tree::from_branch(
                Branch::arm(node("sys7"), Branch::arm(node("child1"), value("child2"))),
                true,
            )),
        ),
        (
            "sys8 => { child }",
            Ok(Tree::from_branch(
                Branch::tree(node("sys8"), Tree::from_node(node("child"), false)),
                false,
            )),
        ),
        (
            "sys8 => { child.func(param) }",
            Ok(Tree::from_branch(
                Branch::tree(node("sys8"), Tree::from_node(node("child.func(param)"), false)),
                false,
            )),
        ),
        (
            "sys9 => { child },",
            Ok(Tree::from_branch(
                Branch::tree(node("sys9"), Tree::from_node(node("child"), false)),
                true,
            )),
        ),
        (
            "sys10 => { child, },",
            Ok(Tree::from_branch(
                Branch::tree(node("sys10"), Tree::from_node(node("child"), true)),
                true,
            )),
        ),
        ("sys11a sys11b", Err("expected `,`")),
        ("sys12a, sys12b", Ok(list(vec![value("sys12a"), value("sys12b")]))),
        (
            "sys13a => child, sys13b",
            Ok(list(vec![Branch::arm(node("sys13a"), value("child")), value("sys13b")])),
        ),
        ("sys14a => child sys14b", Err("expected `,`")),
    ];

    for (text, expected) in cases {
        let actual = read(text);
        check_result(&actual, &expected);
    }
}

#[test]
fn startup_tree_tokenize_tree() {
    let tree = StartupTree::parse(&tokens(COMPLEX_TREE)).expect("failed to arrange for test");
    assert_eq!(tree.to_tokens().to_string(), expected_levels("IntoScheduleConfigs"));

    let tree = StartupTree::parse_for(&tokens(COMPLEX_TREE), HostApi::SystemConfigs)
        .expect("failed to arrange for test");
    assert_eq!(tree.to_tokens().to_string(), expected_levels("IntoSystemConfigs"));
}

#[test]
fn startup_tree_of_one_value_has_one_level() {
    let tree = StartupTree::parse(&tokens("sys")).expect("parses");
    let expected =
        tokens("vec![::std::vec![::bevy::prelude::IntoScheduleConfigs::into_configs(sys)]]");
    assert_eq!(tree.to_tokens().to_string(), expected.to_string());
}

#[test]
fn startup_tree_of_a_chain_has_one_level_for_each_value() {
    let tree = StartupTree::parse_for(&tokens("a => b => c => d"), HostApi::SystemDescriptor)
        .expect("parses");
    let expected = tokens(
        "vec![
            ::std::vec![::bevy::prelude::IntoSystemDescriptor::into_descriptor(a)],
            ::std::vec![::bevy::prelude::IntoSystemDescriptor::into_descriptor(b)],
            ::std::vec![::bevy::prelude::IntoSystemDescriptor::into_descriptor(c)],
            ::std::vec![::bevy::prelude::IntoSystemDescriptor::into_descriptor(d)]
        ]",
    );
    assert_eq!(tree.to_tokens().to_string(), expected.to_string());
}

#[test]
fn startup_tree_counts_depths_from_the_root() {
    let tree = StartupTree::parse(&tokens("a => { b => { c }, d }, e => f => { g }")).expect("parses");
    assert_eq!(tree.tree.depth.0, 0);
    match &tree.tree.branches[0] {
        Branch::Tree(_, below_a) => {
            assert_eq!(below_a.depth.0, 1);
            match &below_a.branches[0] {
                Branch::Tree(_, below_b) => assert_eq!(below_b.depth.0, 2),
                other => panic!("expected a sub tree, got {other:?}"),
            }
        }
        other => panic!("expected a sub tree, got {other:?}"),
    }
    // The sub tree at the end of an arm is part of the arm's chain: the
    // pass does not go into it.
    match &tree.tree.branches[1] {
        Branch::Arm(_, chain) => match &**chain {
            Branch::Tree(_, below_f) => assert_eq!(below_f.depth.0, 0),
            other => panic!("expected a sub tree, got {other:?}"),
        },
        other => panic!("expected an arm, got {other:?}"),
    }
}

#[test]
fn startup_tree_errors_are_the_grammars() {
    let cases = [
        ("", "tree may not be empty"),
        ("a => { }", "tree may not be empty"),
        ("a b", "expected `,`"),
        ("a => { b c }", "expected `,`"),
        ("a =>", "unexpected end of input, expected an expression"),
    ];
    for (text, message) in cases {
        match StartupTree::parse(&tokens(text)) {
            Ok(tree) => panic!("{text:?} parsed to {tree:?}"),
            Err(error) => assert_eq!(error.message(), message),
        }
    }
}
