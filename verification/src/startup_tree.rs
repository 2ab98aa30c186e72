//! The tree of startup systems and the levels it compiles to.
//!
//! A startup tree is written as `vec![ ::std::vec![call, ...], ... ]`: one
//! inner list for each level of the tree, in which every value of the level
//! stands as a call into the host's scheduler.

use crate::levels::tree_to_levels;
use crate::node::{host_call, ExprNode, HostApi};
use crate::parse::{
    call_site, expr_model, parse_tree, parsed_tree, ErrorModel, ParseError, ParseErrorKind,
    ValueGrammar,
};
use crate::tokens::{
    append_stream, join_streams, join_with_commas, new_stream, path_sep, push_group, push_ident,
    push_path_segment, push_punct, stream_tokens, streams_tokens, Delim, Spacing, TokenTree,
};
use crate::tree::{
    lemma_depths_of_model, lemma_nesting_of_model, model_forest_nesting, model_with_depths,
    tree_model, Tree, TreeModel,
};
use vstd::prelude::*;

verus! {

/// The tokens of `name![inner]`.
pub open spec fn bracket_macro(name: Seq<char>, inner: Seq<TokenTree>) -> Seq<TokenTree> {
    seq![
        TokenTree::Ident(name),
        TokenTree::Punct('!', Spacing::Alone),
        TokenTree::Group(Delim::Bracket, inner),
    ]
}

/// The tokens of one level: `::std::vec![call, ...]`, the calls in the
/// order of the level's values.
pub open spec fn level_tokens(host: HostApi, level: Seq<ExprNode>) -> Seq<TokenTree> {
    path_sep().push(TokenTree::Ident("std"@)) + path_sep() + bracket_macro(
        "vec"@,
        join_with_commas(level_calls(host, level)),
    )
}

/// The tokens of all levels: `vec![level, ...]`, level 0 first.
pub open spec fn levels_tokens(host: HostApi, levels: Seq<Seq<ExprNode>>) -> Seq<TokenTree> {
    bracket_macro(
        "vec"@,
        join_with_commas(levels_macros(host, levels)),
    )
}

/// The call for each value of a level.
pub open spec fn level_calls(host: HostApi, level: Seq<ExprNode>) -> Seq<Seq<TokenTree>> {
    level.map_values(|node: ExprNode| host_call(host, node@))
}

/// The tokens of each of the levels.
pub open spec fn levels_macros(host: HostApi, levels: Seq<Seq<ExprNode>>) -> Seq<Seq<TokenTree>> {
    levels.map_values(|level: Seq<ExprNode>| level_tokens(host, level))
}

/// Writes `name![inner]`.
fn bracket_macro_stream(name: &str, inner: proc_macro2::TokenStream) -> (stream:
    proc_macro2::TokenStream)
    requires
        crate::tokens::is_plain_ident(name@),
    ensures
        stream_tokens(stream) == bracket_macro(name@, stream_tokens(inner)),
{
    let mut stream = new_stream();
    push_ident(&mut stream, name);
    push_punct(&mut stream, '!', Spacing::Alone);
    push_group(&mut stream, Delim::Bracket, inner);
    assert(stream_tokens(stream) =~= bracket_macro(name@, stream_tokens(inner)));
    stream
}

/// Writes one level as `::std::vec![call, ...]`.
pub fn level_to_tokens(host: HostApi, level: &Vec<&ExprNode>) -> (stream: proc_macro2::TokenStream)
    ensures
        stream_tokens(stream) == level_tokens(host, crate::levels::level_values(*level)),
{
    let ghost values = crate::levels::level_values(*level);
    let ghost calls = level_calls(host, values);
    let mut rendered: Vec<proc_macro2::TokenStream> = Vec::new();
    let mut index: usize = 0;
    while index < level.len()
        invariant
            index <= level.len(),
            values == crate::levels::level_values(*level),
            calls == level_calls(host, values),
            rendered.len() == index,
            forall|i: int| 0 <= i < index ==> stream_tokens(#[trigger] rendered@[i]) == calls[i],
        decreases level.len() - index,
    {
        let call = level[index].as_host_call(host);
        rendered.push(call);
        index += 1;
    }
    proof {
        assert(streams_tokens(rendered@) =~= calls);
        reveal_strlit("std");
        reveal_strlit("vec");
    }
    let inner = join_streams(&rendered);
    let mut stream = new_stream();
    push_path_segment(&mut stream, "std");
    push_punct(&mut stream, ':', Spacing::Joint);
    push_punct(&mut stream, ':', Spacing::Alone);
    append_stream(&mut stream, bracket_macro_stream("vec", inner));
    assert(stream_tokens(stream) =~= level_tokens(host, values));
    stream
}

/// Writes the levels as `vec![level, ...]`.
pub fn levels_to_tokens(host: HostApi, levels: &Vec<Vec<&ExprNode>>) -> (stream:
    proc_macro2::TokenStream)
    ensures
        stream_tokens(stream) == levels_tokens(host, crate::levels::levels_values(levels@)),
{
    let ghost values = crate::levels::levels_values(levels@);
    let ghost macros = levels_macros(host, values);
    let mut rendered: Vec<proc_macro2::TokenStream> = Vec::new();
    let mut index: usize = 0;
    while index < levels.len()
        invariant
            index <= levels.len(),
            values == crate::levels::levels_values(levels@),
            macros == levels_macros(host, values),
            rendered.len() == index,
            forall|i: int| 0 <= i < index ==> stream_tokens(#[trigger] rendered@[i]) == macros[i],
        decreases levels.len() - index,
    {
        let level = level_to_tokens(host, &levels[index]);
        rendered.push(level);
        index += 1;
    }
    proof {
        assert(streams_tokens(rendered@) =~= macros);
        reveal_strlit("vec");
    }
    bracket_macro_stream("vec", join_streams(&rendered))
}

/// A parsed tree of startup systems, with the host interface that its
/// calls are rendered for.
#[derive(Debug)]
pub struct StartupTree {
    pub tree: Tree<ExprNode>,
    pub host: HostApi,
}

/// What parsing a startup tree gives: the tree that the grammar names, its
/// depths counted from 0 at the root, or the grammar's error, or `TooDeep`
/// for a tree whose depths cannot be counted.
pub open spec fn startup_tree_read(
    read: Result<StartupTree, ParseError>,
    parsed: Result<TreeModel<Seq<TokenTree>>, ErrorModel>,
    host: HostApi,
) -> bool {
    match parsed {
        Err(error) => read is Err && read->Err_0.kind.model() == error,
        Ok(model) => if model_forest_nesting(model.branches) <= u32::MAX {
            &&& read is Ok
            &&& read->Ok_0.host == host
            &&& tree_model(read->Ok_0.tree, expr_model()) == model_with_depths(model, 0)
        } else {
            read is Err && read->Err_0.kind.model() == ErrorModel::TooDeep
        },
    }
}

impl StartupTree {
    /// Parses a tree whose values are expressions and counts its depths
    /// from the root. The calls will go through the host's current
    /// interface.
    pub fn parse(input: &proc_macro2::TokenStream) -> (read: Result<StartupTree, ParseError>)
        ensures
            startup_tree_read(
                read,
                parsed_tree(ValueGrammar::Expr, stream_tokens(*input)),
                HostApi::ScheduleConfigs,
            ),
    {
        StartupTree::parse_for(input, HostApi::ScheduleConfigs)
    }

    /// Parses a tree whose values are expressions and counts its depths
    /// from the root. The calls will go through `host`.
    pub fn parse_for(input: &proc_macro2::TokenStream, host: HostApi) -> (read: Result<
        StartupTree,
        ParseError,
    >)
        ensures
            startup_tree_read(read, parsed_tree(ValueGrammar::Expr, stream_tokens(*input)), host),
    {
        let mut tree = match parse_tree(input, ValueGrammar::Expr) {
            Ok(tree) => tree,
            Err(error) => {
                return Err(error);
            },
        };
        proof {
            lemma_nesting_of_model(tree.branches@, expr_model());
        }
        if !tree.nesting_within(u32::MAX) {
            return Err(ParseError { kind: ParseErrorKind::TooDeep, span: call_site() });
        }
        let ghost parsed = tree;
        tree.set_depth_root();
        proof {
            lemma_depths_of_model(parsed, tree, 0, expr_model());
        }
        Ok(StartupTree { tree, host })
    }

    /// Writes the tree as the list of its levels: `vec![ ::std::vec![...],
    /// ... ]`, with one inner list for each level, level 0 first, and in it
    /// the call for each value of the level in source order.
    pub fn to_tokens(&self) -> (stream: proc_macro2::TokenStream)
        ensures
            stream_tokens(stream) == levels_tokens(self.host, self.tree.levels()),
    {
        let tree_levels = tree_to_levels(&self.tree);
        levels_to_tokens(self.host, &tree_levels)
    }
}

} // verus!
