use proc_macro2::TokenStream;
use startup_tree_core::node::{ExprNode, HostApi};
use std::str::FromStr;

fn text_tokens(text: &str) -> TokenStream {
    TokenStream::from_str(text).expect("the text lexes")
}

#[test]
fn node_node_correctly_creates_the_into_descriptor_call() {
    let node = ExprNode::new(text_tokens("sys"));

    let expected_call =
        text_tokens("::bevy::prelude::IntoScheduleConfigs::into_configs(sys)").to_string();
    let actual_call = node.as_into_descriptor_call().to_string();
    assert_eq!(actual_call, expected_call);

    let expected_call =
        text_tokens("::bevy::prelude::IntoSystemConfigs::into_configs(sys)").to_string();
    let actual_call = node.as_host_call(HostApi::SystemConfigs).to_string();
    assert_eq!(actual_call, expected_call);

    let expected_call =
        text_tokens("::bevy::prelude::IntoSystemDescriptor::into_descriptor(sys)").to_string();
    let actual_call = node.as_host_call(HostApi::SystemDescriptor).to_string();
    assert_eq!(actual_call, expected_call);
}

#[test]
fn node_call_wraps_a_whole_expression() {
    let node = ExprNode::new(text_tokens("a::b.after(c)"));
    let expected =
        text_tokens("::bevy::prelude::IntoScheduleConfigs::into_configs(a::b.after(c))").to_string();
    assert_eq!(node.as_into_descriptor_call().to_string(), expected);
}

#[test]
fn node_equality_is_over_tokens() {
    assert_eq!(ExprNode::new(text_tokens("a :: b")), ExprNode::new(text_tokens("a::b")));
    assert_ne!(ExprNode::new(text_tokens("a")), ExprNode::new(text_tokens("b")));
    assert_ne!(ExprNode::new(text_tokens("a")), ExprNode::new(text_tokens("a b")));
    assert_ne!(ExprNode::new(text_tokens("f(a)")), ExprNode::new(text_tokens("f[a]")));
    assert_ne!(ExprNode::new(text_tokens("f(a)")), ExprNode::new(text_tokens("f(b)")));
    assert_ne!(ExprNode::new(text_tokens("a = > b")), ExprNode::new(text_tokens("a => b")));
    assert_ne!(ExprNode::new(text_tokens("1")), ExprNode::new(text_tokens("2")));
    assert_eq!(node_text(&ExprNode::new(text_tokens("f ( a )"))), "f (a)");
}

fn node_text(node: &ExprNode) -> String {
    node.tokens().to_string()
}
