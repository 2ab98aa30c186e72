//! The value of a branch: an expression that names a system.

use crate::tokens::{
    new_stream, path_sep, push_group, push_path_segment, stream_tokens, streams_equal, Delim,
    TokenTree,
};
use crate::tree::Tree;
use vstd::prelude::*;

verus! {

/// The scheduling interface of the host framework that a rendered call
/// goes through. The host renamed it from release to release; the grammar
/// and the tree do not depend on it.
#[derive(Clone, Copy, Debug, PartialEq, Eq, Structural)]
pub enum HostApi {
    /// `IntoScheduleConfigs::into_configs`
    ScheduleConfigs,
    /// `IntoSystemConfigs::into_configs`
    SystemConfigs,
    /// `IntoSystemDescriptor::into_descriptor`
    SystemDescriptor,
}

impl HostApi {
    /// The trait that the call names.
    pub open spec fn trait_name(self) -> Seq<char> {
        match self {
            HostApi::ScheduleConfigs => "IntoScheduleConfigs"@,
            HostApi::SystemConfigs => "IntoSystemConfigs"@,
            HostApi::SystemDescriptor => "IntoSystemDescriptor"@,
        }
    }

    /// The method of the trait that the call names.
    pub open spec fn method_name(self) -> Seq<char> {
        match self {
            HostApi::ScheduleConfigs => "into_configs"@,
            HostApi::SystemConfigs => "into_configs"@,
            HostApi::SystemDescriptor => "into_descriptor"@,
        }
    }
}

/// The tokens of `::bevy::prelude::Trait::method(receiver)`, with the trait
/// and the method of `host`.
pub open spec fn host_call(host: HostApi, receiver: Seq<TokenTree>) -> Seq<TokenTree> {
    path_sep().push(TokenTree::Ident("bevy"@)) + path_sep().push(TokenTree::Ident("prelude"@))
        + path_sep().push(TokenTree::Ident(host.trait_name())) + path_sep().push(
        TokenTree::Ident(host.method_name()),
    ).push(TokenTree::Group(Delim::Paren, receiver))
}

/// One value of the grammar: the tokens of an expression, most often a
/// path, that refers to a system.
#[derive(Debug)]
pub struct ExprNode {
    tokens: proc_macro2::TokenStream,
}

impl View for ExprNode {
    type V = Seq<TokenTree>;

    /// The tokens of the expression.
    closed spec fn view(&self) -> Seq<TokenTree> {
        stream_tokens(self.tokens)
    }
}

impl ExprNode {
    /// The value made of the tokens of `expr`.
    pub fn new(expr: proc_macro2::TokenStream) -> (node: Self)
        ensures
            node@ == stream_tokens(expr),
    {
        ExprNode { tokens: expr }
    }

    /// The tokens of the expression.
    pub fn tokens(&self) -> (tokens: &proc_macro2::TokenStream)
        ensures
            stream_tokens(*tokens) == self@,
    {
        &self.tokens
    }

    /// Renders the value as the call that hands it to the host's scheduler
    /// through the interface `host`.
    pub fn as_host_call(&self, host: HostApi) -> (call: proc_macro2::TokenStream)
        ensures
            stream_tokens(call) == host_call(host, self@),
    {
        let mut call = new_stream();
        proof {
            reveal_strlit("bevy");
            reveal_strlit("prelude");
            reveal_strlit("IntoScheduleConfigs");
            reveal_strlit("IntoSystemConfigs");
            reveal_strlit("IntoSystemDescriptor");
            reveal_strlit("into_configs");
            reveal_strlit("into_descriptor");
        }
        push_path_segment(&mut call, "bevy");
        push_path_segment(&mut call, "prelude");
        match host {
            HostApi::ScheduleConfigs => {
                push_path_segment(&mut call, "IntoScheduleConfigs");
                push_path_segment(&mut call, "into_configs");
            },
            HostApi::SystemConfigs => {
                push_path_segment(&mut call, "IntoSystemConfigs");
                push_path_segment(&mut call, "into_configs");
            },
            HostApi::SystemDescriptor => {
                push_path_segment(&mut call, "IntoSystemDescriptor");
                push_path_segment(&mut call, "into_descriptor");
            },
        }
        push_group(&mut call, Delim::Paren, self.tokens.clone());
        assert(stream_tokens(call) =~= host_call(host, self@));
        call
    }

    /// Renders the value as the call that the host's current interface
    /// expects: `::bevy::prelude::IntoScheduleConfigs::into_configs(value)`.
    pub fn as_into_descriptor_call(&self) -> (call: proc_macro2::TokenStream)
        ensures
            stream_tokens(call) == host_call(HostApi::ScheduleConfigs, self@),
    {
        self.as_host_call(HostApi::ScheduleConfigs)
    }
}

impl Tree<ExprNode> {
    /// A tree of one lone value, the expression that `path` holds, at
    /// depth 0.
    pub fn from_path(path: proc_macro2::TokenStream, trailing_comma: bool) -> (tree: Self)
        ensures
            tree.depth.0 == 0,
            tree.branches@.len() == 1,
            tree.branches@[0] is Leaf,
            tree.branches@[0].spec_node()@ == stream_tokens(path),
            tree.trailing_comma == trailing_comma,
    {
        Tree::from_node(ExprNode::new(path), trailing_comma)
    }
}

impl Clone for ExprNode {
    /// A value of the same tokens.
    fn clone(&self) -> (copy: Self)
        ensures
            copy@ == self@,
    {
        ExprNode { tokens: self.tokens.clone() }
    }
}

impl PartialEq for ExprNode {
    /// Two values are equal when they hold the same tokens.
    fn eq(&self, other: &Self) -> (same: bool) {
        streams_equal(&self.tokens, &other.tokens)
    }
}

impl Eq for ExprNode {

}

impl vstd::std_specs::cmp::PartialEqSpecImpl for ExprNode {
    open spec fn obeys_eq_spec() -> bool {
        true
    }

    open spec fn eq_spec(&self, other: &Self) -> bool {
        self@ == other@
    }
}

} // verus!
