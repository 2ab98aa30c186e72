use proc_macro2::TokenStream;
use startup_tree_core::node::{ExprNode, HostApi};
use startup_tree_core::parse::{parse_tree, ParseError, ValueGrammar};
use startup_tree_core::startup_tree::StartupTree;
use startup_tree_core::tree::{Branch, Tree, TreeDepth};
use std::str::FromStr;

fn lexed(text: &str) -> TokenStream {
    TokenStream::from_str(text).expect("the text lexes")
}

fn path(text: &str) -> ExprNode {
    ExprNode::new(lexed(text))
}

fn branch(text: &str) -> Branch<ExprNode> {
    Branch::leaf(path(text))
}

fn branches(branches: Vec<Branch<ExprNode>>) -> Tree<ExprNode> {
    Tree::from_branches(branches, false)
}

fn parse_paths(text: &str) -> Result<Tree<ExprNode>, ParseError> {
    parse_tree(&lexed(text), ValueGrammar::Path)
}

fn assert_same(actual: &Result<Tree<ExprNode>, ParseError>, expected: &Result<Tree<ExprNode>, &str>) {
    match (actual, expected) {
        (Ok(actual_value), Ok(expected_value)) => assert_eq!(actual_value, expected_value),
        (Err(actual_error), Err(expected_message)) => {
            assert_eq!(actual_error.message(), *expected_message)
        }
        (Ok(actual_value), Err(expected_message)) => {
            panic!("expected the error {expected_message:?}, got {actual_value:?}")
        }
        (Err(actual_error), Ok(expected_value)) => {
            panic!("expected {expected_value:?}, got the error {:?}", actual_error.message())
        }
    }
}

#[derive(Debug, PartialEq)]
enum D {
    Value(TreeDepth),
    Tree(TreeDepth, Vec<D>),
}

fn get_tree_depths(tree: &Tree<ExprNode>) -> D {
    let depth = TreeDepth::default();
    D::Tree(depth, get_tree_depths_inner(tree, depth))
}

fn get_tree_depths_inner(tree: &Tree<ExprNode>, mut depth: TreeDepth) -> Vec<D> {
    depth.add_assign(1);
    tree.branches
        .iter()
        .map(|branch| match branch {
            Branch::Tree(_, subtree) => D::Tree(depth, get_tree_depths_inner(subtree, depth)),
            _ => D::Value(depth),
        })
        .collect()
}

#[test]
fn integration_parse_tree_with_one_node() {
    let tree = parse_paths("sys").expect("parses");
    assert_eq!(tree, Tree::from_node(path("sys"), false));
}

#[test]
fn integration_parse_tree_with_long_branch() {
    let tree = parse_paths("sys1 => sys2 => sys3").expect("parses");
    let expected = Tree::from_branch(
        Branch::arm(path("sys1"), Branch::arm(path("sys2"), branch("sys3"))),
        false,
    );
    assert_eq!(tree, expected);
}

#[test]
fn integration_parse_complex_tree() {
    let expected = branches(vec![
        branch("s1a"),
        Branch::tree(
            path("s1b"),
            branches(vec![
                Branch::arm(path("s2a"), branch("s3a")),
                Branch::tree(path("s2b"), branches(vec![branch("s3b"), branch("s3c")])),
            ]),
        ),
    ]);

    let actual = parse_paths(
        "s1a,
        s1b => {
            s2a => s3a,
            s2b => {
                s3b,
                s3c
            }
        }",
    )
    .expect("parses");

    assert_eq!(actual, expected);
}

#[test]
fn parse_tree_branches_and_commas() {
    let cases = [
        ("sys1", Ok(Tree::from_node(path("sys1"), false))),
        ("sys2,", Ok(Tree::from_branch(branch("sys2"), true))),
        ("sys3 =>", Err("unexpected end of input, expected identifier")),
        ("sys4 => child", Ok(Tree::from_branch(Branch::arm(path("sys4"), branch("child")), false))),
        ("sys5 => child,", Ok(Tree::from_branch(Branch::arm(path("sys5"), branch("child")), true))),
        (
            "sys6 => child1 => child2",
            Ok(Tree::from_branch(
                Branch::arm(path("sys6"), Branch::arm(path("child1"), branch("child2"))),
                false,
            )),
        ),
        (
            "sys7 => child1 => child2,",
            Ok(Tree::from_branch(
                Branch::arm(path("sys7"), Branch::arm(path("child1"), branch("child2"))),
                true,
            )),
        ),
        (
            "sys8 => { child }",
            Ok(Tree::from_branch(
                Branch::tree(path("sys8"), Tree::from_node(path("child"), false)),
                false,
            )),
        ),
        (
            "sys9 => { child },",
            Ok(Tree::from_branch(
                Branch::tree(path("sys9"), Tree::from_node(path("child"), false)),
                true,
            )),
        ),
        (
            "sys10 => { child, },",
            Ok(Tree::from_branch(
                Branch::tree(path("sys10"), Tree::from_node(path("child"), true)),
                true,
            )),
        ),
        ("sys11a sys11b", Err("expected `,`")),
        ("sys12a, sys12b", Ok(branches(vec![branch("sys12a"), branch("sys12b")]))),
        (
            "sys13a => child, sys13b",
            Ok(branches(vec![Branch::arm(path("sys13a"), branch("child")), branch("sys13b")])),
        ),
        ("sys14a => child sys14b", Err("expected `,`")),
    ];

    for (text, expected) in cases {
        let actual = parse_paths(text);
        assert_same(&actual, &expected);
    }
}

#[test]
fn integration_tokenize_tree() {
    let tree = StartupTree::parse_for(
        &lexed(
            "s1a,
            s1b => {
                s2a => s3a,
                s2b => {
                    s3b,
                    s3c => s4a => s5a,
                },
            },",
        ),
        HostApi::SystemConfigs,
    )
    .expect("failed to arrange for test");

    let expected = lexed(
        "vec![
            ::std::vec![
                ::bevy::prelude::IntoSystemConfigs::into_configs(s1a),
                ::bevy::prelude::IntoSystemConfigs::into_configs(s1b)
            ],
            ::std::vec![
                ::bevy::prelude::IntoSystemConfigs::into_configs(s2a),
                ::bevy::prelude::IntoSystemConfigs::into_configs(s2b)
            ],
            ::std::vec![
                ::bevy::prelude::IntoSystemConfigs::into_configs(s3a),
                ::bevy::prelude::IntoSystemConfigs::into_configs(s3b),
                ::bevy::prelude::IntoSystemConfigs::into_configs(s3c)
            ],
            ::std::vec![::bevy::prelude::IntoSystemConfigs::into_configs(s4a)],
            ::std::vec![::bevy::prelude::IntoSystemConfigs::into_configs(s5a)]
        ]",
    )
    .to_string();

    let actual = tree.to_tokens().to_string();

    assert_eq!(actual, expected);
}

#[test]
fn calculate_tree_depth() {
    // s1a,
    // s1b => {
    //     s2a,
    //     s2b => {
    //         s3a => s4a,
    //     },
    // },

    let expected_depths = D::Tree(
        TreeDepth(0),
        vec![
            D::Value(TreeDepth(1)),
            D::Tree(
                TreeDepth(1),
                vec![D::Value(TreeDepth(2)), D::Tree(TreeDepth(2), vec![D::Value(TreeDepth(3))])],
            ),
        ],
    );

    let mut actual = Tree::new(
        TreeDepth::default(),
        vec![
            branch("s1a"),
            Branch::tree(
                path("s1b"),
                Tree::new(
                    TreeDepth::default(),
                    vec![
                        branch("s2a"),
                        Branch::tree(
                            path("s2b"),
                            Tree::new(
                                TreeDepth::default(),
                                vec![Branch::arm(path("s3a"), branch("s4a"))],
                            ),
                        ),
                    ],
                ),
            ),
        ],
    );
    actual.set_depth_root();
    let actual_depths = get_tree_depths(&actual);

    assert_eq!(actual_depths, expected_depths);

    assert_eq!(actual.depth, TreeDepth(0));
    match &actual.branches[1] {
        Branch::Tree(_, below) => {
            assert_eq!(below.depth, TreeDepth(1));
            match &below.branches[1] {
                Branch::Tree(_, deepest) => assert_eq!(deepest.depth, TreeDepth(2)),
                other => panic!("expected a sub tree, got {other:?}"),
            }
        }
        other => panic!("expected a sub tree, got {other:?}"),
    }
    assert!(actual.nesting_within(2));
    assert!(!actual.nesting_within(1));
}
