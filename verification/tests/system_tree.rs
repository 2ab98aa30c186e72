use proc_macro2::TokenStream;
use rand::Rng;
use startup_tree_core::parse::ParseError;
use startup_tree_core::rng::NodeRng;
use startup_tree_core::system_node::SystemNode;
use startup_tree_core::system_tree::{runtime_statements, HostRun, SystemTree};
use startup_tree_core::tree::{Branch, Tree};
use std::collections::HashSet;
use std::str::FromStr;

fn source(text: &str) -> TokenStream {
    TokenStream::from_str(text).expect("the text lexes")
}

fn system(text: &str, rng: &mut NodeRng) -> SystemNode {
    SystemNode::new(source(text), rng).expect("a plain path")
}

fn lone(text: &str, rng: &mut NodeRng) -> Branch<SystemNode> {
    Branch::leaf(system(text, rng))
}

fn named(text: &str, slug: &str) -> SystemNode {
    SystemNode::with_slug(source(text), slug).expect("a plain path")
}

fn forest(branches: Vec<Branch<SystemNode>>) -> Tree<SystemNode> {
    Tree::from_branches(branches, false)
}

fn compare(actual: &Result<SystemTree, ParseError>, expected: &Result<Tree<SystemNode>, &str>) {
    match (actual, expected) {
        (Ok(actual_value), Ok(expected_value)) => assert_eq!(&actual_value.tree, expected_value),
        (Err(actual_error), Err(expected_message)) => {
            assert_eq!(actual_error.message(), *expected_message)
        }
        (Ok(actual_value), Err(expected_message)) => {
            panic!("expected the error {expected_message:?}, got {actual_value:?}")
        }
        (Err(actual_error), Ok(expected_value)) => {
            panic!("expected {expected_value:?}, got the error {:?}", actual_error.message())
        }
    }
}

const COMPLEX: &str = "
    s1a,
    s1b => {
        s2a => s3a,
        s2b => {
            s3b,
            s3c => s4a => s5a,
        },
    },
";

#[test]
fn reseed_works() {
    let mut rng = NodeRng::seeded(1);
    rng.reseed(0);
    let a = rng.get().gen::<u32>();
    rng.reseed(0);
    let b = rng.get().gen::<u32>();
    assert_eq!(a, b);
    assert_eq!(NodeRng::seeded(0).get().gen::<u32>(), a);
}

#[test]
fn system_tree_parse_tree_with_one_node() {
    let tree = SystemTree::parse(&source("sys"), &mut NodeRng::seeded(0)).expect("parses");
    let mut rng = NodeRng::seeded(0);
    assert_eq!(tree.tree, Tree::from_node(system("sys", &mut rng), false));
}

#[test]
fn system_tree_parse_tree_with_long_branch() {
    let tree =
        SystemTree::parse(&source("sys1 => sys2 => sys3"), &mut NodeRng::seeded(0)).expect("parses");
    let mut rng = NodeRng::seeded(0);
    let sys1 = system("sys1", &mut rng);
    let sys2 = system("sys2", &mut rng);
    let sys3 = system("sys3", &mut rng);
    let expected =
        Tree::from_branch(Branch::arm(sys1, Branch::arm(sys2, Branch::leaf(sys3))), false);
    assert_eq!(tree.tree, expected);
}

#[test]
fn system_tree_parse_complex_tree() {
    let mut rng = NodeRng::seeded(0);
    let s1a = lone("s1a", &mut rng);
    let s1b = system("s1b", &mut rng);
    let s2a = system("s2a", &mut rng);
    let s3a = lone("s3a", &mut rng);
    let s2b = system("s2b", &mut rng);
    let s3b = lone("s3b", &mut rng);
    let s3c = lone("s3c", &mut rng);
    let expected = forest(vec![
        s1a,
        Branch::tree(
            s1b,
            forest(vec![Branch::arm(s2a, s3a), Branch::tree(s2b, forest(vec![s3b, s3c]))]),
        ),
    ]);

    let actual = SystemTree::parse(
        &source(
            "s1a,
            s1b => {
                s2a => s3a,
                s2b => {
                    s3b,
                    s3c
                }
            }",
        ),
        &mut NodeRng::seeded(0),
    )
    .expect("parses");

    assert_eq!(actual.tree, expected);
}

#[test]
fn system_tree_parse_tree_nodes_and_commas() {
    let mut rng = NodeRng::seeded(0);
    let expected_cases: Vec<Result<Tree<SystemNode>, &str>> = vec![
        // #1
        Ok(Tree::from_node(system("sys1", &mut rng), false)),
        // #2
        Ok(Tree::from_branch(lone("sys2", &mut rng), true)),
        // #3
        Err("unexpected end of input, expected identifier"),
        // #4
        Ok(Tree::from_branch(
            Branch::arm(system("sys4", &mut rng), lone("child", &mut rng)),
            false,
        )),
        // #5
        Ok(Tree::from_branch(
            Branch::arm(system("sys5", &mut rng), lone("child", &mut rng)),
            true,
        )),
        // #6
        Ok(Tree::from_branch(
            Branch::arm(
                system("sys6", &mut rng),
                Branch::arm(system("child1", &mut rng), lone("child2", &mut rng)),
            ),
            false,
        )),
        // #7
        Ok(Tree::from_branch(
            Branch::arm(
                system("sys7", &mut rng),
                Branch::arm(system("child1", &mut rng), lone("child2", &mut rng)),
            ),
            true,
        )),
        // #8
        Ok(Tree::from_branch(
            Branch::tree(
                system("sys8", &mut rng),
                Tree::from_node(system("child", &mut rng), false),
            ),
            false,
        )),
        // #9
        Ok(Tree::from_branch(
            Branch::tree(
                system("sys9", &mut rng),
                Tree::from_node(system("child", &mut rng), false),
            ),
            true,
        )),
        // #10
        Ok(Tree::from_branch(
            Branch::tree(
                system("sys10", &mut rng),
                Tree::from_node(system("child", &mut rng), true),
            ),
            true,
        )),
        // #11
        Err("expected `,`"),
        // #12
        Ok(forest(vec![lone("sys12a", &mut rng), lone("sys12b", &mut rng)])),
        // #13
        Ok(forest(vec![
            Branch::arm(system("sys13a", &mut rng), lone("child", &mut rng)),
            lone("sys13b", &mut rng),
        ])),
        // #14
        Err("expected `,`"),
    ];

    let mut rng = NodeRng::seeded(0);
    let actual_cases = [
        // #1
        "sys1",
        // #2
        "sys2,",
        // #3
        "sys3 =>",
        // #4
        "sys4 => child",
        // #5
        "sys5 => child,",
        // #6
        "sys6 => child1 => child2",
        // #7
        "sys7 => child1 => child2,",
        // #8
        "sys8 => { child }",
        // #9
        "sys9 => { child },",
        // #10
        "sys10 => { child, },",
        // #11
        "sys11a sys11b",
        // #12
        "sys12a, sys12b",
        // #13
        "sys13a => child, sys13b",
        // #14
        "sys14a => child sys14b",
    ];

    for (text, expected) in actual_cases.into_iter().zip(&expected_cases) {
        let actual = SystemTree::parse(&source(text), &mut rng);
        compare(&actual, expected);
    }
}

#[test]
fn system_tree_tokenize_tree() {
    let tree = SystemTree::parse_for(&source(COMPLEX), &mut NodeRng::seeded(0), HostRun::Unchecked)
        .expect("failed to arrange for test");

    let expected = source(
        "#[allow(non_snake_case, clippy::let_unit_value)]
        |world: &mut ::bevy::ecs::world::World| {
            use ::bevy::ecs::system::RunSystemOnce;
            let __sysout__ccd58l__s1a = world.run_system_once_with((), s1a);
            let __sysout__dZ0PpD__s1b = world.run_system_once_with((), s1b);
            let __sysout__6OOTyu__s2a = world.run_system_once_with(__sysout__dZ0PpD__s1b, s2a);
            let __sysout__lLQ3Y5__s3a = world.run_system_once_with(__sysout__6OOTyu__s2a, s3a);
            let __sysout__C0b2AW__s2b = world.run_system_once_with(__sysout__dZ0PpD__s1b, s2b);
            let __sysout__7SXSra__s3b = world.run_system_once_with(__sysout__C0b2AW__s2b, s3b);
            let __sysout__BqyWIc__s3c = world.run_system_once_with(__sysout__C0b2AW__s2b, s3c);
            let __sysout__sWVb0o__s4a = world.run_system_once_with(__sysout__BqyWIc__s3c, s4a);
            let __sysout__GF7MJv__s5a = world.run_system_once_with(__sysout__sWVb0o__s4a, s5a);
        }",
    )
    .to_string();

    assert_eq!(tree.to_tokens().to_string(), expected);

    let tree = SystemTree {
        tree: forest(vec![
            Branch::leaf(named("s1a", "UYXAfB")),
            Branch::tree(
                named("s1b", "22SEUE"),
                Tree::from_branches(
                    vec![
                        Branch::arm(named("s2a", "GGEZoH"), Branch::leaf(named("s3a", "UZRICR"))),
                        Branch::tree(
                            named("s2b", "bYIp6C"),
                            Tree::from_branches(
                                vec![
                                    Branch::leaf(named("s3b", "QYW33N")),
                                    Branch::arm(
                                        named("s3c", "gKtLkT"),
                                        Branch::arm(
                                            named("s4a", "WDCLNK"),
                                            Branch::leaf(named("s5a", "PblhyI")),
                                        ),
                                    ),
                                ],
                                true,
                            ),
                        ),
                    ],
                    true,
                ),
            ),
        ]),
        host: HostRun::Checked,
    };

    let expected = source(
        "#[allow(non_snake_case, clippy::let_unit_value)]
        |world: &mut ::bevy::ecs::world::World| {
            fn run(
                world: &mut ::bevy::ecs::world::World,
            ) -> Result<(), ::bevy::ecs::system::RunSystemError> {
                use ::bevy::ecs::system::RunSystemOnce;
                let __sysout__UYXAfB__s1a = world.run_system_once_with(s1a, ()) ? ;
                let __sysout__22SEUE__s1b = world.run_system_once_with(s1b, ()) ? ;
                let __sysout__GGEZoH__s2a = world.run_system_once_with(s2a, __sysout__22SEUE__s1b) ? ;
                let __sysout__UZRICR__s3a = world.run_system_once_with(s3a, __sysout__GGEZoH__s2a) ? ;
                let __sysout__bYIp6C__s2b = world.run_system_once_with(s2b, __sysout__22SEUE__s1b) ? ;
                let __sysout__QYW33N__s3b = world.run_system_once_with(s3b, __sysout__bYIp6C__s2b) ? ;
                let __sysout__gKtLkT__s3c = world.run_system_once_with(s3c, __sysout__bYIp6C__s2b) ? ;
                let __sysout__WDCLNK__s4a = world.run_system_once_with(s4a, __sysout__gKtLkT__s3c) ? ;
                let __sysout__PblhyI__s5a = world.run_system_once_with(s5a, __sysout__WDCLNK__s4a) ? ;
                Ok(())
            }
            run(world).expect(\"invalid system params\");
        }",
    )
    .to_string();

    assert_eq!(tree.to_tokens().to_string(), expected);
}

#[test]
fn system_tree_of_one_value_runs_it_on_the_unit() {
    let tree = SystemTree { tree: Tree::from_node(named("sys", "abc123"), false), host: HostRun::Checked };
    let expected =
        source("let __sysout__abc123__sys = world.run_system_once_with(sys, ()) ? ;").to_string();
    assert_eq!(tree.to_tokens_runtime_system_statements().to_string(), expected);

    let statements = runtime_statements(&tree.tree);
    assert_eq!(statements.len(), 1);
    assert!(statements[0].parent.is_none());
    assert_eq!(statements[0].value.system_output_ident(), "__sysout__abc123__sys");
}

#[test]
fn system_tree_of_a_chain_feeds_each_system_with_the_one_before() {
    let tree = SystemTree::parse(&source("sys1 => sys2 => sys3"), &mut NodeRng::seeded(3))
        .expect("parses");
    let statements = runtime_statements(&tree.tree);
    assert_eq!(statements.len(), 3);
    assert!(statements[0].parent.is_none());
    assert_eq!(statements[1].parent, Some(statements[0].value));
    assert_eq!(statements[2].parent, Some(statements[1].value));
    let paths: Vec<String> =
        statements.iter().map(|statement| statement.value.system_path().to_string()).collect();
    assert_eq!(paths, ["sys1", "sys2", "sys3"]);

    let chain = SystemTree {
        tree: Tree::from_branch(
            Branch::arm(
                named("a", "000001"),
                Branch::arm(
                    named("b", "000002"),
                    Branch::arm(named("c", "000003"), Branch::leaf(named("d", "000004"))),
                ),
            ),
            false,
        ),
        host: HostRun::Checked,
    };
    let expected = source(
        "let __sysout__000001__a = world.run_system_once_with(a, ()) ? ;
        let __sysout__000002__b = world.run_system_once_with(b, __sysout__000001__a) ? ;
        let __sysout__000003__c = world.run_system_once_with(c, __sysout__000002__b) ? ;
        let __sysout__000004__d = world.run_system_once_with(d, __sysout__000003__c) ? ;",
    )
    .to_string();
    assert_eq!(chain.to_tokens_runtime_system_statements().to_string(), expected);
}

#[test]
fn system_tree_statements_come_after_what_feeds_them() {
    let tree = SystemTree::parse(&source(COMPLEX), &mut NodeRng::seeded(5)).expect("parses");
    let statements = runtime_statements(&tree.tree);
    assert_eq!(statements.len(), 9);
    for (index, statement) in statements.iter().enumerate() {
        if let Some(parent) = statement.parent {
            assert!(statements[..index].iter().any(|earlier| earlier.value == parent));
        }
    }
    let order: Vec<String> =
        statements.iter().map(|statement| statement.value.system_path().to_string()).collect();
    assert_eq!(order, ["s1a", "s1b", "s2a", "s3a", "s2b", "s3b", "s3c", "s4a", "s5a"]);
}

#[test]
fn system_node_names() {
    let node = named("a::b::c", "x1y2z3");
    assert_eq!(node.system_output_ident(), "__sysout__x1y2z3__a_b_c");
    assert_eq!(node.system_path().to_string(), source("a::b::c").to_string());

    let mut rng = NodeRng::seeded(0);
    let first = system("sys", &mut rng);
    let second = system("sys", &mut rng);
    assert_eq!(first.system_output_ident(), "__sysout__ccd58l__sys");
    assert_eq!(first.system_output_ident().len(), "__sysout__".len() + 6 + 2 + 3);
    assert_ne!(first, second);
    assert_eq!(first, first.clone());
    let same_name_other_path = named("other", "ccd58l");
    assert_ne!(first, same_name_other_path);
    assert_eq!(named("sys", "ccd58l"), first);
    let set = HashSet::from([first.clone(), second.clone(), first.clone()]);
    assert_eq!(set.len(), 2);
    assert!(set.contains(&named("sys", "ccd58l")));

    assert!(SystemNode::with_slug(source("a + b"), "abc123").is_none());
    assert!(SystemNode::with_slug(source("r#type"), "abc123").is_none());
    assert!(SystemNode::with_slug(source("a"), "ab-123").is_none());
    assert!(SystemNode::with_slug(source(""), "abc123").is_none());
}

#[test]
fn system_tree_errors() {
    let cases = [
        ("", "tree may not be empty"),
        ("a b", "expected `,`"),
        ("a =>", "unexpected end of input, expected identifier"),
        ("a => r#type", "expected a path of plain identifiers"),
    ];
    for (text, message) in cases {
        match SystemTree::parse(&source(text), &mut NodeRng::seeded(0)) {
            Ok(tree) => panic!("{text:?} parsed to {tree:?}"),
            Err(error) => assert_eq!(error.message(), message),
        }
    }
}

#[test]
fn node_rng_from_entropy_gives_slugs() {
    let mut rng = NodeRng::from_entropy().expect("the operating system gives a seed");
    let node = system("sys", &mut rng);
    let name = node.system_output_ident();
    assert!(name.starts_with("__sysout__") && name.ends_with("__sys"));
    assert_eq!(name.len(), 21);
    assert!(name[10..16].chars().all(|ch| ch.is_ascii_alphanumeric()));
}
