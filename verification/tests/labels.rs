use proc_macro2::TokenStream;
use rand::distributions::{Alphanumeric, DistString};
use rand::rngs::StdRng;
use rand::SeedableRng;
use startup_tree_core::labels::{
    decimal, layer_label, layer_labels, StageLabelGenerator, StartupTreeLayer,
};
use startup_tree_core::levels::tree_to_levels;
use startup_tree_core::startup_tree::StartupTree;
use std::collections::HashSet;
use std::str::FromStr;

fn written(text: &str) -> TokenStream {
    TokenStream::from_str(text).expect("the text lexes")
}

fn tree_labels(rng: &mut StdRng, text: &str) -> HashSet<String> {
    let tree = StartupTree::parse(&written(text)).expect("parses");
    let levels = tree_to_levels(&tree.tree).len();
    let namespace = Alphanumeric.sample_string(rng, 6);
    HashSet::from_iter(layer_labels(&namespace, levels))
}

#[test]
fn adds_sequential_labels() {
    let mut rng = StdRng::seed_from_u64(0);

    let actual_labels = tree_labels(
        &mut rng,
        "system => {
            system => system
        }",
    );

    let expected_labels = HashSet::from([
        "__startup_tree_zujxzB_layer_0".into(),
        "__startup_tree_zujxzB_layer_1".into(),
        "__startup_tree_zujxzB_layer_2".into(),
    ]);
    assert_eq!(actual_labels, expected_labels);
}

#[test]
fn adds_correct_labels_for_complex_tree() {
    let mut rng = StdRng::seed_from_u64(0);

    let actual_labels = tree_labels(
        &mut rng,
        "system,
        system => {
            system => system,
            system => {
                system,
                system => system,
            }
        },
        system,",
    );

    let expected_labels = HashSet::from([
        "__startup_tree_zujxzB_layer_0".into(),
        "__startup_tree_zujxzB_layer_1".into(),
        "__startup_tree_zujxzB_layer_2".into(),
        "__startup_tree_zujxzB_layer_3".into(),
    ]);
    assert_eq!(actual_labels, expected_labels);
}

#[test]
fn multiple_trees_dont_reuse_labels() {
    let mut rng = StdRng::seed_from_u64(0);

    let mut actual_labels = tree_labels(&mut rng, "system");
    actual_labels.extend(tree_labels(&mut rng, "system"));

    let expected_labels = HashSet::from([
        "__startup_tree_zujxzB_layer_0".into(),
        "__startup_tree_ql3QHx_layer_0".into(),
    ]);
    assert_eq!(actual_labels, expected_labels);
}

#[test]
fn decimal_writes_numbers() {
    assert_eq!(decimal(0), "0");
    assert_eq!(decimal(7), "7");
    assert_eq!(decimal(10), "10");
    assert_eq!(decimal(1905), "1905");
    assert_eq!(decimal(u64::MAX), "18446744073709551615");
}

#[test]
fn layer_labels_are_numbered() {
    assert_eq!(layer_label("zujxzB", 0), "__startup_tree_zujxzB_layer_0");
    assert_eq!(layer_label("", 12), "__startup_tree__layer_12");
    assert_eq!(layer_labels("abc", 0), Vec::<String>::new());
    assert_eq!(
        layer_labels("n", 11).last().map(String::as_str),
        Some("__startup_tree_n_layer_10")
    );
}

#[test]
fn startup_tree_layer_holds_its_label() {
    let layer = StartupTreeLayer("__startup_tree_zujxzB_layer_0");
    assert_eq!(layer.label(), "__startup_tree_zujxzB_layer_0");
    assert_eq!(layer, layer.clone());
    assert_ne!(layer, StartupTreeLayer("__startup_tree_zujxzB_layer_1"));
}

#[test]
fn stage_labels_are_generated() {
    let generator = StageLabelGenerator::parse(&written("3")).expect("parses");
    assert_eq!(generator, StageLabelGenerator(3));
    assert_eq!(
        generator.labels(),
        ["__startup_tree_stage_0", "__startup_tree_stage_1", "__startup_tree_stage_2"]
    );
    let expected =
        written(r#"["__startup_tree_stage_0", "__startup_tree_stage_1", "__startup_tree_stage_2"]"#);
    assert_eq!(generator.to_tokens().to_string(), expected.to_string());

    assert_eq!(StageLabelGenerator(0).labels(), Vec::<String>::new());
    assert_eq!(StageLabelGenerator(0).to_tokens().to_string(), written("[]").to_string());
    assert_eq!(StageLabelGenerator(12).labels()[11], "__startup_tree_stage_11");
}

#[test]
fn stage_count_must_be_a_number_that_fits() {
    let cases = [
        ("", "unexpected end of input, expected integer literal"),
        ("a", "expected integer literal"),
        ("1 2", "unexpected token"),
        ("4294967296", "number too large to fit in target type"),
    ];
    for (text, message) in cases {
        match StageLabelGenerator::parse(&written(text)) {
            Ok(generator) => panic!("{text:?} parsed to {generator:?}"),
            Err(error) => assert_eq!(error.message(), message),
        }
    }
    assert_eq!(StageLabelGenerator::parse(&written("4294967295")).expect("fits").0, u32::MAX);
    assert_eq!(StageLabelGenerator::parse(&written("0x10")).expect("parses").0, 16);
}
