//! The grammar of trees and its parser.
//!
//! ```text
//! tree         := branch (',' branch)* ','?
//! branch       := value ('=>' continuation)?
//! continuation := branch | '{' tree '}'
//! ```
//!
//! Where a value ends is decided by the value grammar, which belongs to
//! `syn`: [`expr_prefix`], [`path_prefix`] and [`int_literal_prefix`] name
//! what it reads off the front of a token sequence. Everything between the
//! values is decided here. [`parsed_tree`] says what a token sequence
//! parses to, and [`parse_tree`] computes exactly that.

use crate::node::ExprNode;
use crate::tokens::{
    skip_tokens, span_at, stream_tokens, token_at, token_count, Delim, Lexeme, Spacing, TokenTree,
};
use crate::tree::{
    branch_model, forest_model, lemma_forest_model_at_each_place, node_child_model, tree_model,
    Branch, BranchModel, NodeChild, NodeChildModel, Tree, TreeDepth, TreeModel,
};
use vstd::prelude::*;

verus! {

/// The grammar that the values of a tree are written in.
#[derive(Clone, Copy, Debug, PartialEq, Eq, Structural)]
pub enum ValueGrammar {
    /// Any expression.
    Expr,
    /// A path, such as `a` or `a::b`.
    Path,
    /// An integer literal.
    IntLiteral,
}

/// Why a token sequence is no tree.
#[derive(Debug)]
pub enum ParseErrorKind {
    /// A tree, or a sub tree in braces, has no branch.
    EmptyTree,
    /// Two branches follow one another without a comma between them.
    MissingComma,
    /// No value stands where one must; the message is the value grammar's.
    Value(String),
    /// Sub trees are nested deeper than a depth can count.
    TooDeep,
    /// A value is no path whose segments can stand in a binding name.
    Binding,
}

/// The model of a [`ParseErrorKind`].
pub ghost enum ErrorModel {
    EmptyTree,
    MissingComma,
    Value(Seq<char>),
    TooDeep,
    Binding,
}

/// A parse error: what is wrong, and the span of the place, which the
/// caller's diagnostics point at.
#[derive(Debug)]
pub struct ParseError {
    pub kind: ParseErrorKind,
    pub span: proc_macro2::Span,
}

impl ErrorModel {
    /// The text of the error.
    pub open spec fn message(self) -> Seq<char> {
        match self {
            ErrorModel::EmptyTree => "tree may not be empty"@,
            ErrorModel::MissingComma => "expected `,`"@,
            ErrorModel::Value(message) => message,
            ErrorModel::TooDeep => "tree is nested too deep"@,
            ErrorModel::Binding => "expected a path of plain identifiers"@,
        }
    }
}

impl ParseErrorKind {
    /// The model of the error.
    pub open spec fn model(self) -> ErrorModel {
        match self {
            ParseErrorKind::EmptyTree => ErrorModel::EmptyTree,
            ParseErrorKind::MissingComma => ErrorModel::MissingComma,
            ParseErrorKind::Value(message) => ErrorModel::Value(message@),
            ParseErrorKind::TooDeep => ErrorModel::TooDeep,
            ParseErrorKind::Binding => ErrorModel::Binding,
        }
    }
}

impl ParseError {
    /// The text of the error: fixed for an empty tree and a missing comma,
    /// the value grammar's own where a value is missing.
    pub fn message(&self) -> (text: String)
        ensures
            text@ == self.kind.model().message(),
    {
        match &self.kind {
            ParseErrorKind::EmptyTree => "tree may not be empty".to_owned(),
            ParseErrorKind::MissingComma => "expected `,`".to_owned(),
            ParseErrorKind::Value(message) => message.clone(),
            ParseErrorKind::TooDeep => "tree is nested too deep".to_owned(),
            ParseErrorKind::Binding => "expected a path of plain identifiers".to_owned(),
        }
    }
}

/// What `syn` reads when it parses an expression off the front of
/// `tokens`: the tokens of the expression and the number of tokens
/// left behind it, or the message of its error.
pub uninterp spec fn expr_prefix(tokens: Seq<TokenTree>) -> Result<(Seq<TokenTree>, nat), Seq<char>>;

/// What `syn` reads when it parses a path off the front of `tokens`.
pub uninterp spec fn path_prefix(tokens: Seq<TokenTree>) -> Result<(Seq<TokenTree>, nat), Seq<char>>;

/// What `syn` reads when it parses an integer literal off the front of
/// `tokens`.
pub uninterp spec fn int_literal_prefix(tokens: Seq<TokenTree>) -> Result<
    (Seq<TokenTree>, nat),
    Seq<char>,
>;

/// What the value grammar reads off the front of `tokens`.
pub open spec fn value_prefix(grammar: ValueGrammar, tokens: Seq<TokenTree>) -> Result<
    (Seq<TokenTree>, nat),
    Seq<char>,
> {
    match grammar {
        ValueGrammar::Expr => expr_prefix(tokens),
        ValueGrammar::Path => path_prefix(tokens),
        ValueGrammar::IntLiteral => int_literal_prefix(tokens),
    }
}

/// `Span::call_site`: the span of the macro call, for an error that has no
/// token to point at.
#[verifier::external_body]
pub(crate) fn call_site() -> proc_macro2::Span {
    proc_macro2::Span::call_site()
}

/// Has `syn` parse an `Expr` off the front of `input` and count the tokens
/// that it leaves: `Parser::parse2` runs a closure that calls
/// `ParseStream::parse` twice, once for the expression and once for the
/// rest of the stream. The result is what [`expr_prefix`] names; an error
/// keeps its message and its span.
#[verifier::external_body]
fn parse_expr_prefix(input: &proc_macro2::TokenStream) -> (read: Result<
    (proc_macro2::TokenStream, usize),
    ParseError,
>)
    ensures
        prefix_read(read, expr_prefix(stream_tokens(*input))),
{
    let parser = |stream: syn::parse::ParseStream| -> syn::Result<
        (syn::Expr, proc_macro2::TokenStream),
    > { Ok((stream.parse()?, stream.parse()?)) };
    match syn::parse::Parser::parse2(parser, input.clone()) {
        Ok((value, rest)) => Ok((quote::ToTokens::into_token_stream(value), rest.into_iter().count())),
        Err(error) => Err(
            ParseError { kind: ParseErrorKind::Value(error.to_string()), span: error.span() },
        ),
    }
}

/// Has `syn` parse a `Path` off the front of `input` and count the tokens
/// that it leaves, in the same way. The result is what [`path_prefix`]
/// names.
#[verifier::external_body]
fn parse_path_prefix(input: &proc_macro2::TokenStream) -> (read: Result<
    (proc_macro2::TokenStream, usize),
    ParseError,
>)
    ensures
        prefix_read(read, path_prefix(stream_tokens(*input))),
{
    let parser = |stream: syn::parse::ParseStream| -> syn::Result<
        (syn::Path, proc_macro2::TokenStream),
    > { Ok((stream.parse()?, stream.parse()?)) };
    match syn::parse::Parser::parse2(parser, input.clone()) {
        Ok((value, rest)) => Ok((quote::ToTokens::into_token_stream(value), rest.into_iter().count())),
        Err(error) => Err(
            ParseError { kind: ParseErrorKind::Value(error.to_string()), span: error.span() },
        ),
    }
}

/// Has `syn` parse a `LitInt` off the front of `input` and count the
/// tokens that it leaves, in the same way. The result is what
/// [`int_literal_prefix`] names.
#[verifier::external_body]
fn parse_int_literal_prefix(input: &proc_macro2::TokenStream) -> (read: Result<
    (proc_macro2::TokenStream, usize),
    ParseError,
>)
    ensures
        prefix_read(read, int_literal_prefix(stream_tokens(*input))),
{
    let parser = |stream: syn::parse::ParseStream| -> syn::Result<
        (syn::LitInt, proc_macro2::TokenStream),
    > { Ok((stream.parse()?, stream.parse()?)) };
    match syn::parse::Parser::parse2(parser, input.clone()) {
        Ok((value, rest)) => Ok((quote::ToTokens::into_token_stream(value), rest.into_iter().count())),
        Err(error) => Err(
            ParseError { kind: ParseErrorKind::Value(error.to_string()), span: error.span() },
        ),
    }
}

/// `read` is what the value grammar named: the value's tokens with the
/// number of tokens left, or an error of kind `Value` with the message.
pub open spec fn prefix_read(
    read: Result<(proc_macro2::TokenStream, usize), ParseError>,
    named: Result<(Seq<TokenTree>, nat), Seq<char>>,
) -> bool {
    match read {
        Ok((value, rest)) => named == Ok::<(Seq<TokenTree>, nat), Seq<char>>(
            (stream_tokens(value), rest as nat),
        ),
        Err(error) => error.kind matches ParseErrorKind::Value(message) && named == Err::<
            (Seq<TokenTree>, nat),
            Seq<char>,
        >(message@),
    }
}

/// Whether `=>` stands at `index`: a `=` directly followed by a `>`.
pub open spec fn fat_arrow_at(tokens: Seq<TokenTree>, index: int) -> bool {
    &&& 0 <= index
    &&& index + 1 < tokens.len()
    &&& tokens[index] == TokenTree::Punct('=', Spacing::Joint)
    &&& punct_at(tokens, index + 1, '>')
}

/// Whether the punctuation character `ch` stands at `index`.
pub open spec fn punct_at(tokens: Seq<TokenTree>, index: int, ch: char) -> bool {
    &&& 0 <= index < tokens.len()
    &&& tokens[index] matches TokenTree::Punct(at, _)
    &&& at == ch
}

/// Whether a comma stands at `index`.
pub open spec fn comma_at(tokens: Seq<TokenTree>, index: int) -> bool {
    punct_at(tokens, index, ',')
}

/// Whether a group in braces stands at `index`.
pub open spec fn brace_group_at(tokens: Seq<TokenTree>, index: int) -> bool {
    &&& 0 <= index < tokens.len()
    &&& tokens[index] matches TokenTree::Group(delim, _)
    &&& delim == Delim::Brace
}

/// How many tokens a value takes up, when the value grammar was given
/// `given` tokens and left `rest` of them. Should it claim to have left more
/// than it was given, the value is taken to be empty.
pub open spec fn value_len(given: nat, rest: nat) -> nat {
    if rest <= given {
        (given - rest) as nat
    } else {
        0
    }
}

/// The branch that starts at `start`, and how many tokens it takes up: a
/// value, and after a `=>` its continuation.
pub open spec fn parsed_branch(grammar: ValueGrammar, tokens: Seq<TokenTree>, start: nat) -> Result<
    (BranchModel<Seq<TokenTree>>, nat),
    ErrorModel,
>
    decreases tokens, tokens.len() - start, 0nat,
{
    match value_prefix(grammar, tokens.skip(start as int)) {
        Err(message) => Err(ErrorModel::Value(message)),
        Ok((value, rest)) => {
            let len = value_len((tokens.len() - start) as nat, rest);
            if fat_arrow_at(tokens, (start + len) as int) {
                match parsed_continuation(grammar, tokens, start + len + 2) {
                    Err(error) => Err(error),
                    Ok((NodeChildModel::Branch(child), more)) => Ok(
                        (BranchModel::Arm(value, Box::new(child)), len + 2 + more),
                    ),
                    Ok((NodeChildModel::Tree(sub_tree), more)) => Ok(
                        (BranchModel::Tree(value, sub_tree), len + 2 + more),
                    ),
                }
            } else {
                Ok((BranchModel::Leaf(value), len))
            }
        },
    }
}

/// What continues a branch from `start` on, and how many tokens it takes
/// up: the tree inside a group in braces, or else one more branch.
pub open spec fn parsed_continuation(
    grammar: ValueGrammar,
    tokens: Seq<TokenTree>,
    start: nat,
) -> Result<(NodeChildModel<Seq<TokenTree>>, nat), ErrorModel>
    decreases tokens, tokens.len() - start, 1nat,
{
    if brace_group_at(tokens, start as int) {
        match parsed_tree(grammar, tokens[start as int]->Group_1) {
            Err(error) => Err(error),
            Ok(sub_tree) => Ok((NodeChildModel::Tree(sub_tree), 1)),
        }
    } else {
        match parsed_branch(grammar, tokens, start) {
            Err(error) => Err(error),
            Ok((child, len)) => Ok((NodeChildModel::Branch(child), len)),
        }
    }
}

/// The branches from `start` to the end of the tokens, separated by commas,
/// and whether a comma follows the last of them.
pub open spec fn parsed_branches(grammar: ValueGrammar, tokens: Seq<TokenTree>, start: nat) -> Result<
    (Seq<BranchModel<Seq<TokenTree>>>, bool),
    ErrorModel,
>
    decreases tokens, tokens.len() - start, 2nat,
{
    if start < tokens.len() {
        match parsed_branch(grammar, tokens, start) {
            Err(error) => Err(error),
            Ok((branch, len)) => {
                if start + len >= tokens.len() {
                    Ok((seq![branch], false))
                } else if !comma_at(tokens, (start + len) as int) {
                    Err(ErrorModel::MissingComma)
                } else {
                    prepend_branch(branch, parsed_branches(grammar, tokens, start + len + 1))
                }
            },
        }
    } else {
        Ok((Seq::empty(), true))
    }
}

/// `parsed` with `branch` put before its branches.
pub open spec fn prepend_branch(
    branch: BranchModel<Seq<TokenTree>>,
    parsed: Result<(Seq<BranchModel<Seq<TokenTree>>>, bool), ErrorModel>,
) -> Result<(Seq<BranchModel<Seq<TokenTree>>>, bool), ErrorModel> {
    match parsed {
        Err(error) => Err(error),
        Ok((branches, trailing_comma)) => Ok((seq![branch] + branches, trailing_comma)),
    }
}

/// The tree that `tokens` are: at least one branch, the branches separated
/// by commas, a comma after the last one allowed. Every depth is 0.
pub open spec fn parsed_tree(grammar: ValueGrammar, tokens: Seq<TokenTree>) -> Result<
    TreeModel<Seq<TokenTree>>,
    ErrorModel,
>
    decreases tokens, tokens.len() + 1, 0nat,
{
    if tokens.len() == 0 {
        Err(ErrorModel::EmptyTree)
    } else {
        match parsed_branches(grammar, tokens, 0) {
            Err(error) => Err(error),
            Ok((branches, trailing_comma)) => Ok(TreeModel { depth: 0, branches, trailing_comma }),
        }
    }
}

/// Whether an error is one of the grammar's own: an empty tree, a missing
/// comma, or the value grammar's.
pub open spec fn is_grammar_error(error: ErrorModel) -> bool {
    error is EmptyTree || error is MissingComma || error is Value
}

/// Whether a tree and every sub tree in it has at least one branch and
/// depth 0.
pub open spec fn fresh_tree(tree: TreeModel<Seq<TokenTree>>) -> bool
    decreases tree,
{
    &&& tree.depth == 0
    &&& tree.branches.len() > 0
    &&& fresh_branches(tree.branches)
}

/// Whether every sub tree in a list of branches is a [`fresh_tree`].
pub open spec fn fresh_branches(branches: Seq<BranchModel<Seq<TokenTree>>>) -> bool
    decreases branches,
{
    if branches.len() == 0 {
        true
    } else {
        fresh_branch(branches[0]) && fresh_branches(branches.drop_first())
    }
}

/// Whether every sub tree in a branch is a [`fresh_tree`].
pub open spec fn fresh_branch(branch: BranchModel<Seq<TokenTree>>) -> bool
    decreases branch,
{
    match branch {
        BranchModel::Leaf(_) => true,
        BranchModel::Arm(_, child) => fresh_branch(*child),
        BranchModel::Tree(_, sub_tree) => fresh_tree(sub_tree),
    }
}

proof fn lemma_parsed_branch_is_fresh(grammar: ValueGrammar, tokens: Seq<TokenTree>, start: nat)
    ensures
        match parsed_branch(grammar, tokens, start) {
            Ok((branch, _)) => fresh_branch(branch),
            Err(error) => is_grammar_error(error),
        },
    decreases tokens, tokens.len() - start, 0nat,
{
    match value_prefix(grammar, tokens.skip(start as int)) {
        Ok((_, rest)) => {
            let len = value_len((tokens.len() - start) as nat, rest);
            if fat_arrow_at(tokens, (start + len) as int) {
                lemma_parsed_continuation_is_fresh(grammar, tokens, start + len + 2);
            }
        },
        Err(_) => {},
    }
}

proof fn lemma_parsed_continuation_is_fresh(grammar: ValueGrammar, tokens: Seq<TokenTree>, start: nat)
    ensures
        match parsed_continuation(grammar, tokens, start) {
            Ok((NodeChildModel::Branch(branch), _)) => fresh_branch(branch),
            Ok((NodeChildModel::Tree(sub_tree), _)) => fresh_tree(sub_tree),
            Err(error) => is_grammar_error(error),
        },
    decreases tokens, tokens.len() - start, 1nat,
{
    if brace_group_at(tokens, start as int) {
        lemma_parsed_tree_is_fresh(grammar, tokens[start as int]->Group_1);
    } else {
        lemma_parsed_branch_is_fresh(grammar, tokens, start);
    }
}

proof fn lemma_parsed_branches_are_fresh(grammar: ValueGrammar, tokens: Seq<TokenTree>, start: nat)
    ensures
        match parsed_branches(grammar, tokens, start) {
            Ok((branches, _)) => fresh_branches(branches) && (start < tokens.len()
                ==> branches.len() > 0),
            Err(error) => is_grammar_error(error),
        },
    decreases tokens, tokens.len() - start, 2nat,
{
    if start < tokens.len() {
        lemma_parsed_branch_is_fresh(grammar, tokens, start);
        match parsed_branch(grammar, tokens, start) {
            Ok((branch, len)) => {
                if start + len < tokens.len() && comma_at(tokens, (start + len) as int) {
                    lemma_parsed_branches_are_fresh(grammar, tokens, start + len + 1);
                    match parsed_branches(grammar, tokens, start + len + 1) {
                        Ok((later, _)) => {
                            let all = seq![branch] + later;
                            assert(all.drop_first() =~= later);
                            assert(all[0] == branch);
                            assert(fresh_branches(all));
                        },
                        Err(_) => {},
                    }
                } else if start + len >= tokens.len() {
                    let all = seq![branch];
                    assert(all.drop_first() =~= Seq::<BranchModel<Seq<TokenTree>>>::empty());
                    assert(all[0] == branch);
                    assert(fresh_branches(all.drop_first()));
                    assert(fresh_branches(all));
                }
            },
            Err(_) => {},
        }
    }
}

/// What the grammar gives is a tree that has, like every sub tree in it,
/// at least one branch and depth 0, or one of the grammar's three errors:
/// an empty tree, a missing comma, or the value grammar's.
pub proof fn lemma_parsed_tree_is_fresh(grammar: ValueGrammar, tokens: Seq<TokenTree>)
    ensures
        match parsed_tree(grammar, tokens) {
            Ok(tree) => fresh_tree(tree),
            Err(error) => is_grammar_error(error),
        },
    decreases tokens, tokens.len() + 1, 0nat,
{
    if tokens.len() > 0 {
        lemma_parsed_branches_are_fresh(grammar, tokens, 0);
    }
}

/// How a value is seen in the model of a parsed tree: by its tokens.
pub open spec fn expr_model() -> spec_fn(ExprNode) -> Seq<TokenTree> {
    |node: ExprNode| node@
}

/// `read` is the branch that the grammar names, ending at the right place.
pub open spec fn branch_read(
    read: Result<(Branch<ExprNode>, usize), ParseError>,
    parsed: Result<(BranchModel<Seq<TokenTree>>, nat), ErrorModel>,
    start: usize,
) -> bool {
    match read {
        Ok((branch, end)) => parsed == Ok::<(BranchModel<Seq<TokenTree>>, nat), ErrorModel>(
            (branch_model(branch, expr_model()), (end - start) as nat),
        ) && start <= end,
        Err(error) => parsed == Err::<(BranchModel<Seq<TokenTree>>, nat), ErrorModel>(
            error.kind.model(),
        ),
    }
}

/// `read` is the continuation that the grammar names, ending at the right
/// place.
pub open spec fn continuation_read(
    read: Result<(NodeChild<ExprNode>, usize), ParseError>,
    parsed: Result<(NodeChildModel<Seq<TokenTree>>, nat), ErrorModel>,
    start: usize,
) -> bool {
    match read {
        Ok((child, end)) => parsed == Ok::<(NodeChildModel<Seq<TokenTree>>, nat), ErrorModel>(
            (node_child_model(child, expr_model()), (end - start) as nat),
        ) && start <= end,
        Err(error) => parsed == Err::<(NodeChildModel<Seq<TokenTree>>, nat), ErrorModel>(
            error.kind.model(),
        ),
    }
}

/// `read` is the tree that the grammar names, or the error that it names.
pub open spec fn tree_read(
    read: Result<Tree<ExprNode>, ParseError>,
    parsed: Result<TreeModel<Seq<TokenTree>>, ErrorModel>,
) -> bool {
    match read {
        Ok(tree) => parsed == Ok::<TreeModel<Seq<TokenTree>>, ErrorModel>(
            tree_model(tree, expr_model()),
        ),
        Err(error) => parsed == Err::<TreeModel<Seq<TokenTree>>, ErrorModel>(error.kind.model()),
    }
}

/// Reads one value off the front of `input`, by the grammar asked for.
fn parse_value_prefix(input: &proc_macro2::TokenStream, grammar: ValueGrammar) -> (read: Result<
    (proc_macro2::TokenStream, usize),
    ParseError,
>)
    ensures
        prefix_read(read, value_prefix(grammar, stream_tokens(*input))),
{
    match grammar {
        ValueGrammar::Expr => parse_expr_prefix(input),
        ValueGrammar::Path => parse_path_prefix(input),
        ValueGrammar::IntLiteral => parse_int_literal_prefix(input),
    }
}

/// Whether the token at `index` is the punctuation character `ch`.
fn peek_punct(input: &proc_macro2::TokenStream, index: usize, ch: char) -> (found: bool)
    ensures
        found == punct_at(stream_tokens(*input), index as int, ch),
{
    match token_at(input, index) {
        Some(Lexeme::Punct(at, _)) => at == ch,
        _ => false,
    }
}

/// Whether `=>` stands at `index`.
pub fn peek_fat_arrow(input: &proc_macro2::TokenStream, index: usize) -> (found: bool)
    ensures
        found == fat_arrow_at(stream_tokens(*input), index as int),
{
    if index >= token_count(input) {
        return false;
    }
    match token_at(input, index) {
        Some(Lexeme::Punct(first, Spacing::Joint)) => first == '=' && peek_punct(
            input,
            index + 1,
            '>',
        ),
        _ => false,
    }
}

/// Whether a comma stands at `index`.
pub fn peek_comma(input: &proc_macro2::TokenStream, index: usize) -> (found: bool)
    ensures
        found == comma_at(stream_tokens(*input), index as int),
{
    peek_punct(input, index, ',')
}

/// Reads the branch that starts at `start`: a value, and after a `=>` what
/// continues it.
fn parse_branch(input: &proc_macro2::TokenStream, start: usize, grammar: ValueGrammar) -> (read:
    Result<(Branch<ExprNode>, usize), ParseError>)
    requires
        start <= stream_tokens(*input).len(),
    ensures
        branch_read(read, parsed_branch(grammar, stream_tokens(*input), start as nat), start),
        read matches Ok((_, end)) ==> end <= stream_tokens(*input).len(),
    decreases stream_tokens(*input), stream_tokens(*input).len() - start, 0nat,
{
    let len = token_count(input);
    let rest_of_input = skip_tokens(input, start);
    let (value, rest) = match parse_value_prefix(&rest_of_input, grammar) {
        Ok(read) => read,
        Err(error) => {
            return Err(error);
        },
    };
    let node = ExprNode::new(value);
    let end = if rest <= len - start {
        len - rest
    } else {
        start
    };
    if peek_fat_arrow(input, end) {
        match parse_continuation(input, end + 2, grammar) {
            Ok((NodeChild::Branch(child), after)) => Ok((Branch::Arm(node, child), after)),
            Ok((NodeChild::Tree(sub_tree), after)) => Ok((Branch::Tree(node, sub_tree), after)),
            Err(error) => Err(error),
        }
    } else {
        Ok((Branch::Leaf(node), end))
    }
}

/// Reads what continues a branch from `start` on: the tree inside a group
/// in braces, or else one more branch.
fn parse_continuation(input: &proc_macro2::TokenStream, start: usize, grammar: ValueGrammar) -> (read:
    Result<(NodeChild<ExprNode>, usize), ParseError>)
    requires
        start <= stream_tokens(*input).len(),
    ensures
        continuation_read(
            read,
            parsed_continuation(grammar, stream_tokens(*input), start as nat),
            start,
        ),
        read matches Ok((_, end)) ==> end <= stream_tokens(*input).len(),
    decreases stream_tokens(*input), stream_tokens(*input).len() - start, 1nat,
{
    match token_at(input, start) {
        Some(Lexeme::Group(Delim::Brace, brace_contents)) => {
            let ghost group = stream_tokens(*input)[start as int];
            assert(decreases_to!(stream_tokens(*input) => group));
            assert(decreases_to!(group => group->Group_1));
            let len = token_count(input);
            assert(start < len);
            let scope = match span_at(input, start) {
                Some(span) => span,
                None => call_site(),
            };
            match parse_tree_in(&brace_contents, scope, grammar) {
                Ok(sub_tree) => Ok((NodeChild::Tree(sub_tree), start + 1)),
                Err(error) => Err(error),
            }
        },
        _ => match parse_branch(input, start, grammar) {
            Ok((child, after)) => Ok((NodeChild::branch(child), after)),
            Err(error) => Err(error),
        },
    }
}

/// Reads the tree that `input` holds. An input without tokens is an error
/// at `scope`.
fn parse_tree_in(
    input: &proc_macro2::TokenStream,
    scope: proc_macro2::Span,
    grammar: ValueGrammar,
) -> (read: Result<Tree<ExprNode>, ParseError>)
    ensures
        tree_read(read, parsed_tree(grammar, stream_tokens(*input))),
    decreases stream_tokens(*input), stream_tokens(*input).len() + 1, 0nat,
{
    let len = token_count(input);
    if len == 0 {
        return Err(ParseError { kind: ParseErrorKind::EmptyTree, span: scope });
    }
    let ghost tokens = stream_tokens(*input);
    let mut branches: Vec<Branch<ExprNode>> = Vec::new();
    let mut start: usize = 0;
    while start < len
        invariant
            start <= len,
            len == tokens.len(),
            tokens == stream_tokens(*input),
            parsed_branches(grammar, tokens, 0) == prepend_branches(
                forest_model(branches@, expr_model()),
                parsed_branches(grammar, tokens, start as nat),
            ),
        decreases len - start,
    {
        let ghost pushed = branches@;
        let ghost before = forest_model(branches@, expr_model());
        let (branch, end) = match parse_branch(input, start, grammar) {
            Ok(read) => read,
            Err(error) => {
                return Err(error);
            },
        };
        let ghost model = branch_model(branch, expr_model());
        branches.push(branch);
        proof {
            assert(branches@.drop_last() =~= pushed);
            assert(forest_model(branches@, expr_model()) == before.push(model));
        }
        if end >= len {
            proof {
                assert(before + seq![model] =~= before.push(model));
            }
            return Ok(Tree { depth: TreeDepth(0), branches, trailing_comma: false });
        }
        if !peek_comma(input, end) {
            let span = match span_at(input, end) {
                Some(span) => span,
                None => call_site(),
            };
            return Err(ParseError { kind: ParseErrorKind::MissingComma, span });
        }
        proof {
            let later = parsed_branches(grammar, tokens, (end + 1) as nat);
            match later {
                Ok((rest, _)) => {
                    assert(before + (seq![model] + rest) =~= before.push(model) + rest);
                },
                Err(_) => {},
            }
        }
        start = end + 1;
    }
    proof {
        assert(forest_model(branches@, expr_model()) + Seq::empty() =~= forest_model(
            branches@,
            expr_model(),
        ));
    }
    Ok(Tree { depth: TreeDepth(0), branches, trailing_comma: true })
}

/// `parsed` with `branches` put before its branches.
pub open spec fn prepend_branches(
    branches: Seq<BranchModel<Seq<TokenTree>>>,
    parsed: Result<(Seq<BranchModel<Seq<TokenTree>>>, bool), ErrorModel>,
) -> Result<(Seq<BranchModel<Seq<TokenTree>>>, bool), ErrorModel> {
    match parsed {
        Err(error) => Err(error),
        Ok((rest, trailing_comma)) => Ok((branches + rest, trailing_comma)),
    }
}

/// Parses a token stream as a tree whose values are written in `grammar`.
///
/// The result is the tree that [`parsed_tree`] names, with every depth 0,
/// or the error that it names: an empty tree or sub tree, a missing comma
/// between two branches, or the value grammar's own error where no value
/// can be read. A tree that is given has at least one branch.
pub fn parse_tree(input: &proc_macro2::TokenStream, grammar: ValueGrammar) -> (read: Result<
    Tree<ExprNode>,
    ParseError,
>)
    ensures
        tree_read(read, parsed_tree(grammar, stream_tokens(*input))),
        match read {
            Ok(tree) => tree.branches@.len() > 0 && tree.depth.0 == 0,
            Err(error) => is_grammar_error(error.kind.model()),
        },
{
    let read = parse_tree_in(input, call_site(), grammar);
    proof {
        lemma_parsed_tree_is_fresh(grammar, stream_tokens(*input));
        if read is Ok {
            lemma_forest_model_at_each_place(read->Ok_0.branches@, expr_model());
        }
    }
    read
}

} // verus!
