//! The tree of systems that run one after another, each fed the output of
//! the system that leads to it, and the statements it compiles to.

use crate::node::ExprNode;
use crate::parse::{
    call_site, expr_model, parse_tree, parsed_tree, ErrorModel, ParseError, ParseErrorKind,
    ValueGrammar,
};
use crate::rng::{is_slug, NodeRng};
use crate::statements::{
    branch_statements, forest_statements, lemma_statements_can_run_in_order,
};
use crate::system_node::{
    bindable, lemma_binding_name_plain, named, node_made, path_segments, SystemNode,
};
use crate::tokens::{
    append_stream, comma, is_plain_ident, new_stream, path_sep, push_group, push_ident,
    push_path_segment, push_punct, push_string_literal, stream_tokens, string_literal_text, Delim,
    Spacing, TokenTree,
};
use crate::tree::{
    branch_model, forest_model, lemma_all_of_prefix, lemma_model_of_next, model_branch_all,
    model_forest_all, tree_model, Branch, BranchModel, Tree, TreeModel,
};
use vstd::prelude::*;

verus! {

/// How the host framework runs one system on a world. The host changed it
/// from release to release; the order of the statements does not depend
/// on it.
#[derive(Clone, Copy, Debug, PartialEq, Eq, Structural)]
pub enum HostRun {
    /// `world.run_system_once_with(system, input)?` inside a function that
    /// hands the first failure on.
    Checked,
    /// `world.run_system_once_with(input, system)`, which cannot fail.
    Unchecked,
}

/// One statement of the generated code: run the system of `value`, fed
/// with the output of `parent`, or with the unit where there is none.
#[derive(Debug)]
pub struct RuntimeStmt<'a> {
    pub parent: Option<&'a SystemNode>,
    pub value: &'a SystemNode,
}

/// A node behind a reference, if there is one.
pub open spec fn parent_node(parent: Option<&SystemNode>) -> Option<SystemNode> {
    match parent {
        Some(node) => Some(*node),
        None => None,
    }
}

/// What each of the statements says: the feeding node and the node to run.
pub open spec fn statements_model(statements: Seq<RuntimeStmt>) -> Seq<
    (Option<SystemNode>, SystemNode),
> {
    statements.map_values(|statement: RuntimeStmt| statement.model())
}

/// The tokens of what a system is fed with: the binding name of the
/// feeding node, or `()`.
pub open spec fn input_tokens(parent: Option<SystemNode>) -> Seq<TokenTree> {
    match parent {
        Some(node) => seq![TokenTree::Ident(node.output_name())],
        None => seq![TokenTree::Group(Delim::Paren, Seq::empty())],
    }
}

/// The tokens of the arguments of a run: the system's path and what it is
/// fed with, in the order that the host wants.
pub open spec fn run_arguments_tokens(
    host: HostRun,
    statement: (Option<SystemNode>, SystemNode),
) -> Seq<TokenTree> {
    match host {
        HostRun::Checked => statement.1.path_tokens().push(comma())
            + input_tokens(statement.0),
        HostRun::Unchecked => input_tokens(statement.0).push(
            comma(),
        ) + statement.1.path_tokens(),
    }
}

/// The tokens that end a statement: `?;` where a run can fail, `;` where it
/// cannot.
pub open spec fn statement_end_tokens(host: HostRun) -> Seq<TokenTree> {
    match host {
        HostRun::Checked => seq![
            TokenTree::Punct('?', Spacing::Alone),
            TokenTree::Punct(';', Spacing::Alone),
        ],
        HostRun::Unchecked => seq![TokenTree::Punct(';', Spacing::Alone)],
    }
}

/// The tokens of `let name = world.run_system_once_with(arguments)` and the
/// end of the statement.
pub open spec fn statement_tokens(host: HostRun, statement: (Option<SystemNode>, SystemNode)) -> Seq<
    TokenTree,
> {
    seq![
        TokenTree::Ident("let"@),
        TokenTree::Ident(statement.1.output_name()),
        TokenTree::Punct('=', Spacing::Alone),
        TokenTree::Ident("world"@),
        TokenTree::Punct('.', Spacing::Alone),
        TokenTree::Ident("run_system_once_with"@),
        TokenTree::Group(Delim::Paren, run_arguments_tokens(host, statement)),
    ] + statement_end_tokens(host)
}

/// The tokens of the statements, one after another.
pub open spec fn statements_tokens(
    host: HostRun,
    statements: Seq<(Option<SystemNode>, SystemNode)>,
) -> Seq<TokenTree>
    decreases statements.len(),
{
    if statements.len() == 0 {
        Seq::empty()
    } else {
        statements_tokens(host, statements.drop_last()) + statement_tokens(host, statements.last())
    }
}

impl<'a> RuntimeStmt<'a> {
    /// What the statement says: the feeding node and the node to run.
    pub open spec fn model(self) -> (Option<SystemNode>, SystemNode) {
        (parent_node(self.parent), *self.value)
    }

    /// Writes what the system is fed with: the binding name of the feeding
    /// node, or `()`.
    fn push_input(&self, stream: &mut proc_macro2::TokenStream)
        ensures
            stream_tokens(*final(stream)) == stream_tokens(*old(stream)) + input_tokens(
                parent_node(self.parent),
            ),
    {
        match self.parent {
            Some(node) => {
                push_ident(stream, node.system_output_ident());
            },
            None => {
                push_group(stream, Delim::Paren, new_stream());
            },
        }
        assert(stream_tokens(*stream) =~= stream_tokens(*old(stream)) + input_tokens(
            parent_node(self.parent),
        ));
    }

    /// Writes the statement as the host `host` wants it:
    /// `let name = world.run_system_once_with(path, input)?;` or
    /// `let name = world.run_system_once_with(input, path);`.
    pub fn to_tokens_for(&self, host: HostRun) -> (stream: proc_macro2::TokenStream)
        ensures
            stream_tokens(stream) == statement_tokens(host, self.model()),
    {
        proof {
            reveal_strlit("let");
            reveal_strlit("world");
            reveal_strlit("run_system_once_with");
        }
        let mut arguments = new_stream();
        match host {
            HostRun::Checked => {
                append_stream(&mut arguments, self.value.system_path().clone());
                push_punct(&mut arguments, ',', Spacing::Alone);
                self.push_input(&mut arguments);
            },
            HostRun::Unchecked => {
                self.push_input(&mut arguments);
                push_punct(&mut arguments, ',', Spacing::Alone);
                append_stream(&mut arguments, self.value.system_path().clone());
            },
        }
        assert(stream_tokens(arguments) =~= run_arguments_tokens(host, self.model()));
        let mut stream = new_stream();
        push_ident(&mut stream, "let");
        push_ident(&mut stream, self.value.system_output_ident());
        push_punct(&mut stream, '=', Spacing::Alone);
        push_ident(&mut stream, "world");
        push_punct(&mut stream, '.', Spacing::Alone);
        push_ident(&mut stream, "run_system_once_with");
        push_group(&mut stream, Delim::Paren, arguments);
        match host {
            HostRun::Checked => {
                push_punct(&mut stream, '?', Spacing::Alone);
            },
            HostRun::Unchecked => {},
        }
        push_punct(&mut stream, ';', Spacing::Alone);
        assert(stream_tokens(stream) =~= statement_tokens(host, self.model()));
        stream
    }

    /// Writes the statement as the host's current interface wants it:
    /// `let name = world.run_system_once_with(path, input)?;`.
    pub fn to_tokens(&self) -> (stream: proc_macro2::TokenStream)
        ensures
            stream_tokens(stream) == statement_tokens(HostRun::Checked, self.model()),
    {
        self.to_tokens_for(HostRun::Checked)
    }
}

/// Walks one branch below `parent`: the statement of its own value, then
/// the statements of what the value leads to.
fn branch_to_statements<'a>(
    statements: &mut Vec<RuntimeStmt<'a>>,
    parent: Option<&'a SystemNode>,
    branch: &'a Branch<SystemNode>,
)
    ensures
        statements_model(final(statements)@) == statements_model(old(statements)@)
            + branch_statements(parent_node(parent), *branch),
    decreases *branch,
{
    let ghost before = statements_model(statements@);
    let value = branch.node();
    statements.push(RuntimeStmt { parent, value });
    proof {
        assert(statements_model(statements@) =~= before + seq![(parent_node(parent), *value)]);
    }
    match branch {
        Branch::Leaf(_) => {},
        Branch::Arm(_, next_branch) => {
            branch_to_statements(statements, Some(value), next_branch);
        },
        Branch::Tree(_, next_tree) => {
            tree_to_statements(statements, Some(value), next_tree);
        },
    }
    proof {
        assert(statements_model(statements@) =~= before + branch_statements(
            parent_node(parent),
            *branch,
        ));
    }
}

/// Walks the branches of a tree below `parent`, in source order.
fn tree_to_statements<'a>(
    statements: &mut Vec<RuntimeStmt<'a>>,
    parent: Option<&'a SystemNode>,
    tree: &'a Tree<SystemNode>,
)
    ensures
        statements_model(final(statements)@) == statements_model(old(statements)@)
            + forest_statements(parent_node(parent), tree.branches@),
    decreases *tree,
{
    let ghost before = statements_model(statements@);
    let mut index: usize = 0;
    proof {
        assert(statements_model(statements@) =~= before + forest_statements(
            parent_node(parent),
            tree.branches@.take(0),
        ));
    }
    while index < tree.branches.len()
        invariant
            index <= tree.branches.len(),
            statements_model(statements@) == before + forest_statements(
                parent_node(parent),
                tree.branches@.take(index as int),
            ),
        decreases tree.branches.len() - index,
    {
        proof {
            assert(tree.branches@.take(index + 1).drop_last() =~= tree.branches@.take(
                index as int,
            ));
        }
        branch_to_statements(statements, parent, &tree.branches[index]);
        proof {
            assert(statements_model(statements@) =~= before + forest_statements(
                parent_node(parent),
                tree.branches@.take(index + 1),
            ));
        }
        index += 1;
    }
    proof {
        assert(tree.branches@.take(index as int) =~= tree.branches@);
    }
}

/// The statements of a tree of systems: one for each value, a value before
/// all that it leads to, the branches of a tree in source order.
pub fn runtime_statements(tree: &Tree<SystemNode>) -> (statements: Vec<RuntimeStmt<'_>>)
    ensures
        statements_model(statements@) == tree.statements(),
{
    let mut statements: Vec<RuntimeStmt> = Vec::new();
    tree_to_statements(&mut statements, None, tree);
    proof {
        assert(statements_model(statements@) =~= tree.statements());
    }
    statements
}

/// In the statements of a tree, the binding that a statement is fed with
/// is the binding of a statement that comes before it: what is generated
/// never reads a name before the `let` that defines it.
pub proof fn lemma_inputs_are_bound_before(tree: Tree<SystemNode>)
    ensures
        forall|i: int|
            0 <= i < tree.statements().len() && (#[trigger] tree.statements()[i]).0 is Some
                ==> exists|j: int|
                0 <= j < i && (#[trigger] tree.statements()[j]).1.output_name()
                    == tree.statements()[i].0->Some_0.output_name(),
{
    lemma_statements_can_run_in_order(tree);
    let statements = tree.statements();
    assert forall|i: int|
        0 <= i < statements.len() && (#[trigger] statements[i]).0 is Some implies exists|j: int|
        0 <= j < i && (#[trigger] statements[j]).1.output_name()
            == statements[i].0->Some_0.output_name() by {
        let j = choose|j: int|
            0 <= j < i && (#[trigger] statements[j]).1 == statements[i].0->Some_0;
        assert(statements[j].1.output_name() == statements[i].0->Some_0.output_name());
    }
}

/// How a node is seen in the model of a tree of systems: by its path.
pub open spec fn system_model() -> spec_fn(SystemNode) -> Seq<TokenTree> {
    |node: SystemNode| node.path_tokens()
}

/// A node seen as itself.
pub open spec fn itself() -> spec_fn(SystemNode) -> SystemNode {
    |node: SystemNode| node
}

/// [`named`] as a predicate over nodes.
pub open spec fn is_named() -> spec_fn(SystemNode) -> bool {
    |node: SystemNode| named(node)
}

/// [`bindable`] as a predicate over paths.
pub open spec fn is_bindable() -> spec_fn(Seq<TokenTree>) -> bool {
    |path: Seq<TokenTree>| bindable(path)
}

/// What binding a branch gives: where a name can be made for every value,
/// the same branch with a named node for each value, and nothing otherwise.
pub open spec fn branch_bound(
    bound: Option<Branch<SystemNode>>,
    model: BranchModel<Seq<TokenTree>>,
) -> bool {
    if model_branch_all(model, is_bindable()) {
        &&& bound is Some
        &&& branch_model(bound->Some_0, system_model()) == model
        &&& model_branch_all(branch_model(bound->Some_0, itself()), is_named())
    } else {
        bound is None
    }
}

/// What binding a tree gives: where a name can be made for every value,
/// the same tree with a named node for each value, and nothing otherwise.
pub open spec fn tree_bound(bound: Option<Tree<SystemNode>>, model: TreeModel<Seq<TokenTree>>) -> bool {
    if model_forest_all(model.branches, is_bindable()) {
        &&& bound is Some
        &&& tree_model(bound->Some_0, system_model()) == model
        &&& model_forest_all(tree_model(bound->Some_0, itself()).branches, is_named())
    } else {
        bound is None
    }
}

/// Makes the node for one value, drawing its slug from `rng`.
fn bind_value(value: &ExprNode, rng: &mut NodeRng) -> (node: Option<SystemNode>)
    ensures
        bindable(value@) <==> node is Some,
        node is Some ==> node->Some_0.path_tokens() == value@ && named(node->Some_0),
{
    let node = SystemNode::new(value.tokens().clone(), rng);
    proof {
        let slug = choose|slug: Seq<char>| is_slug(slug) && node_made(node, value@, slug);
        match path_segments(value@) {
            Some(segments) => {
                lemma_binding_name_plain(slug, segments);
            },
            None => {},
        }
    }
    node
}

/// Gives every value of a branch its node, in source order.
fn bind_branch(branch: &Branch<ExprNode>, rng: &mut NodeRng) -> (bound: Option<Branch<SystemNode>>)
    ensures
        branch_bound(bound, branch_model(*branch, expr_model())),
    decreases *branch,
{
    match branch {
        Branch::Leaf(value) => match bind_value(value, rng) {
            Some(node) => Some(Branch::Leaf(node)),
            None => None,
        },
        Branch::Arm(value, child) => {
            let node = bind_value(value, rng);
            let next = bind_branch(child, rng);
            match (node, next) {
                (Some(node), Some(next)) => Some(Branch::Arm(node, Box::new(next))),
                _ => None,
            }
        },
        Branch::Tree(value, sub_tree) => {
            let node = bind_value(value, rng);
            let next = bind_tree(sub_tree, rng);
            match (node, next) {
                (Some(node), Some(next)) => Some(Branch::Tree(node, next)),
                _ => None,
            }
        },
    }
}

/// Gives every value of a tree its node, in source order. The tree keeps
/// its shape, its depths and its trailing commas.
pub fn bind_tree(tree: &Tree<ExprNode>, rng: &mut NodeRng) -> (bound: Option<Tree<SystemNode>>)
    ensures
        tree_bound(bound, tree_model(*tree, expr_model())),
    decreases *tree,
{
    let ghost models = forest_model(tree.branches@, expr_model());
    let mut branches: Vec<Branch<SystemNode>> = Vec::new();
    let mut index: usize = 0;
    while index < tree.branches.len()
        invariant
            index <= tree.branches.len(),
            branches.len() == index,
            models == forest_model(tree.branches@, expr_model()),
            model_forest_all(forest_model(tree.branches@.take(index as int), expr_model()), is_bindable()),
            forest_model(branches@, system_model()) == forest_model(
                tree.branches@.take(index as int),
                expr_model(),
            ),
            model_forest_all(forest_model(branches@, itself()), is_named()),
        decreases tree.branches.len() - index,
    {
        proof {
            lemma_model_of_next(tree.branches@, expr_model(), index as int);
        }
        let ghost done = branches@;
        match bind_branch(&tree.branches[index], rng) {
            Some(branch) => {
                branches.push(branch);
                proof {
                    assert(branches@.drop_last() =~= done);
                    let next = forest_model(tree.branches@.take(index + 1), expr_model());
                    assert(next.drop_last() =~= forest_model(
                        tree.branches@.take(index as int),
                        expr_model(),
                    ));
                    let named = forest_model(branches@, itself());
                    assert(named.drop_last() =~= forest_model(done, itself()));
                }
            },
            None => {
                proof {
                    if model_forest_all(models, is_bindable()) {
                        assert(tree.branches@.take(tree.branches@.len() as int)
                            =~= tree.branches@);
                        lemma_all_of_prefix(models, is_bindable(), models.len() as int);
                        lemma_forest_model_take(tree.branches@, index + 1);
                        lemma_all_of_prefix(models, is_bindable(), index + 1);
                    }
                }
                return None;
            },
        }
        index += 1;
    }
    proof {
        assert(tree.branches@.take(index as int) =~= tree.branches@);
    }
    Some(Tree { depth: tree.depth, branches, trailing_comma: tree.trailing_comma })
}

proof fn lemma_forest_model_take(branches: Seq<Branch<ExprNode>>, count: int)
    requires
        0 <= count <= branches.len(),
    ensures
        forest_model(branches.take(count), expr_model()) == forest_model(
            branches,
            expr_model(),
        ).take(count),
        forest_model(branches, expr_model()).len() == branches.len(),
    decreases branches.len(),
{
    if branches.len() > 0 {
        lemma_forest_model_take(branches.drop_last(), if count < branches.len() {
            count
        } else {
            count - 1
        });
        if count < branches.len() {
            assert(branches.drop_last().take(count) =~= branches.take(count));
            assert(forest_model(branches, expr_model()).take(count) =~= forest_model(
                branches.drop_last(),
                expr_model(),
            ).take(count));
        } else {
            assert(branches.take(count) =~= branches);
            assert(forest_model(branches, expr_model()).take(count) =~= forest_model(
                branches,
                expr_model(),
            ));
        }
    } else {
        assert(branches.take(count) =~= branches);
        assert(forest_model(branches, expr_model()).take(count) =~= forest_model(
            branches,
            expr_model(),
        ));
    }
}

/// The tokens of `&mut ::bevy::ecs::world::World`.
pub open spec fn world_type_tokens() -> Seq<TokenTree> {
    seq![TokenTree::Punct('&', Spacing::Alone), TokenTree::Ident("mut"@)] + path_sep().push(
        TokenTree::Ident("bevy"@),
    ) + path_sep().push(TokenTree::Ident("ecs"@)) + path_sep().push(TokenTree::Ident("world"@))
        + path_sep().push(TokenTree::Ident("World"@))
}

/// The tokens of `world: &mut ::bevy::ecs::world::World`.
pub open spec fn world_parameter_tokens() -> Seq<TokenTree> {
    seq![TokenTree::Ident("world"@), TokenTree::Punct(':', Spacing::Alone)] + world_type_tokens()
}

/// The tokens of `::bevy::ecs::system::` and `name`.
pub open spec fn system_item_tokens(name: Seq<char>) -> Seq<TokenTree> {
    path_sep().push(TokenTree::Ident("bevy"@)) + path_sep().push(TokenTree::Ident("ecs"@))
        + path_sep().push(TokenTree::Ident("system"@)) + path_sep().push(TokenTree::Ident(name))
}

/// The tokens of `#[allow(non_snake_case, clippy::let_unit_value)]`.
pub open spec fn allow_attribute_tokens() -> Seq<TokenTree> {
    seq![
        TokenTree::Punct('#', Spacing::Alone),
        TokenTree::Group(
            Delim::Bracket,
            seq![
                TokenTree::Ident("allow"@),
                TokenTree::Group(
                    Delim::Paren,
                    seq![
                        TokenTree::Ident("non_snake_case"@),
                        comma(),
                        TokenTree::Ident("clippy"@),
                    ] + path_sep().push(TokenTree::Ident("let_unit_value"@)),
                ),
            ],
        ),
    ]
}

/// The tokens of the import of `RunSystemOnce` and the statements.
pub open spec fn imported_statements_tokens(statements: Seq<TokenTree>) -> Seq<TokenTree> {
    seq![TokenTree::Ident("use"@)] + system_item_tokens("RunSystemOnce"@).push(
        TokenTree::Punct(';', Spacing::Alone),
    ) + statements
}

/// The tokens of the body of `run`: the import of `RunSystemOnce`, the
/// statements, and `Ok(())`.
pub open spec fn run_body_tokens(statements: Seq<TokenTree>) -> Seq<TokenTree> {
    imported_statements_tokens(statements) + seq![
        TokenTree::Ident("Ok"@),
        TokenTree::Group(
            Delim::Paren,
            seq![TokenTree::Group(Delim::Paren, Seq::empty())],
        ),
    ]
}

/// The tokens of the definition of `run`:
/// `fn run(world,) -> Result<(), ::bevy::ecs::system::RunSystemError> { body }`.
pub open spec fn run_definition_tokens(statements: Seq<TokenTree>) -> Seq<TokenTree> {
    seq![
        TokenTree::Ident("fn"@),
        TokenTree::Ident("run"@),
        TokenTree::Group(
            Delim::Paren,
            world_parameter_tokens().push(comma()),
        ),
        TokenTree::Punct('-', Spacing::Joint),
        TokenTree::Punct('>', Spacing::Alone),
        TokenTree::Ident("Result"@),
        TokenTree::Punct('<', Spacing::Alone),
        TokenTree::Group(Delim::Paren, Seq::empty()),
        comma(),
    ] + system_item_tokens("RunSystemError"@) + seq![
        TokenTree::Punct('>', Spacing::Alone),
        TokenTree::Group(Delim::Brace, run_body_tokens(statements)),
    ]
}

/// The tokens of `run(world).expect("invalid system params");`.
pub open spec fn run_call_tokens() -> Seq<TokenTree> {
    seq![
        TokenTree::Ident("run"@),
        TokenTree::Group(Delim::Paren, seq![TokenTree::Ident("world"@)]),
        TokenTree::Punct('.', Spacing::Alone),
        TokenTree::Ident("expect"@),
        TokenTree::Group(
            Delim::Paren,
            seq![TokenTree::Literal(string_literal_text("invalid system params"@))],
        ),
        TokenTree::Punct(';', Spacing::Alone),
    ]
}

/// The tokens of the body of the closure: where a run can fail, the
/// definition of `run` around the statements and the call of `run`; where
/// it cannot, the import of `RunSystemOnce` and the statements.
pub open spec fn closure_body_tokens(host: HostRun, statements: Seq<TokenTree>) -> Seq<TokenTree> {
    match host {
        HostRun::Checked => run_definition_tokens(statements) + run_call_tokens(),
        HostRun::Unchecked => imported_statements_tokens(statements),
    }
}

/// The tokens of the closure that runs the statements: the attribute, the
/// parameter between bars, and the body in braces.
pub open spec fn closure_tokens(host: HostRun, statements: Seq<TokenTree>) -> Seq<TokenTree> {
    allow_attribute_tokens() + seq![TokenTree::Punct('|', Spacing::Alone)]
        + world_parameter_tokens() + seq![
        TokenTree::Punct('|', Spacing::Alone),
        TokenTree::Group(Delim::Brace, closure_body_tokens(host, statements)),
    ]
}

/// Writes `world: &mut ::bevy::ecs::world::World`.
fn world_parameter() -> (stream: proc_macro2::TokenStream)
    ensures
        stream_tokens(stream) == world_parameter_tokens(),
{
    proof {
        reveal_strlit("world");
        reveal_strlit("mut");
        reveal_strlit("bevy");
        reveal_strlit("ecs");
        reveal_strlit("World");
    }
    let mut stream = new_stream();
    push_ident(&mut stream, "world");
    push_punct(&mut stream, ':', Spacing::Alone);
    push_punct(&mut stream, '&', Spacing::Alone);
    push_ident(&mut stream, "mut");
    push_path_segment(&mut stream, "bevy");
    push_path_segment(&mut stream, "ecs");
    push_path_segment(&mut stream, "world");
    push_path_segment(&mut stream, "World");
    assert(stream_tokens(stream) =~= world_parameter_tokens());
    stream
}

/// Appends `::bevy::ecs::system::` and `name`.
fn push_system_item(stream: &mut proc_macro2::TokenStream, name: &str)
    requires
        is_plain_ident(name@),
    ensures
        stream_tokens(*final(stream)) == stream_tokens(*old(stream)) + system_item_tokens(name@),
{
    proof {
        reveal_strlit("bevy");
        reveal_strlit("ecs");
        reveal_strlit("system");
    }
    push_path_segment(stream, "bevy");
    push_path_segment(stream, "ecs");
    push_path_segment(stream, "system");
    push_path_segment(stream, name);
    assert(stream_tokens(*stream) =~= stream_tokens(*old(stream)) + system_item_tokens(name@));
}

/// Writes `#[allow(non_snake_case, clippy::let_unit_value)]`.
fn allow_attribute() -> (stream: proc_macro2::TokenStream)
    ensures
        stream_tokens(stream) == allow_attribute_tokens(),
{
    proof {
        reveal_strlit("allow");
        reveal_strlit("non_snake_case");
        reveal_strlit("clippy");
        reveal_strlit("let_unit_value");
    }
    let mut lints = new_stream();
    push_ident(&mut lints, "non_snake_case");
    push_punct(&mut lints, ',', Spacing::Alone);
    push_ident(&mut lints, "clippy");
    push_path_segment(&mut lints, "let_unit_value");
    assert(stream_tokens(lints) =~= seq![
        TokenTree::Ident("non_snake_case"@),
        comma(),
        TokenTree::Ident("clippy"@),
    ] + path_sep().push(TokenTree::Ident("let_unit_value"@)));
    let mut attribute = new_stream();
    push_ident(&mut attribute, "allow");
    push_group(&mut attribute, Delim::Paren, lints);
    assert(stream_tokens(attribute) =~= seq![
        TokenTree::Ident("allow"@),
        TokenTree::Group(Delim::Paren, stream_tokens(lints)),
    ]);
    let mut stream = new_stream();
    push_punct(&mut stream, '#', Spacing::Alone);
    push_group(&mut stream, Delim::Bracket, attribute);
    assert(stream_tokens(stream) =~= allow_attribute_tokens());
    stream
}

/// Writes the import of `RunSystemOnce` and the statements.
fn imported_statements(statements: proc_macro2::TokenStream) -> (stream: proc_macro2::TokenStream)
    ensures
        stream_tokens(stream) == imported_statements_tokens(stream_tokens(statements)),
{
    proof {
        reveal_strlit("use");
        reveal_strlit("RunSystemOnce");
    }
    let mut stream = new_stream();
    push_ident(&mut stream, "use");
    push_system_item(&mut stream, "RunSystemOnce");
    push_punct(&mut stream, ';', Spacing::Alone);
    append_stream(&mut stream, statements);
    assert(stream_tokens(stream) =~= imported_statements_tokens(stream_tokens(statements)));
    stream
}

/// Writes the definition of `run` around the statements.
fn run_definition(statements: proc_macro2::TokenStream) -> (stream: proc_macro2::TokenStream)
    ensures
        stream_tokens(stream) == run_definition_tokens(stream_tokens(statements)),
{
    proof {
        reveal_strlit("use");
        reveal_strlit("RunSystemOnce");
        reveal_strlit("Ok");
        reveal_strlit("fn");
        reveal_strlit("run");
        reveal_strlit("Result");
        reveal_strlit("RunSystemError");
    }
    let mut unit = new_stream();
    push_group(&mut unit, Delim::Paren, new_stream());
    let mut body = imported_statements(statements);
    push_ident(&mut body, "Ok");
    push_group(&mut body, Delim::Paren, unit);
    assert(stream_tokens(body) =~= run_body_tokens(stream_tokens(statements)));
    let mut parameters = world_parameter();
    push_punct(&mut parameters, ',', Spacing::Alone);
    let mut stream = new_stream();
    push_ident(&mut stream, "fn");
    push_ident(&mut stream, "run");
    push_group(&mut stream, Delim::Paren, parameters);
    push_punct(&mut stream, '-', Spacing::Joint);
    push_punct(&mut stream, '>', Spacing::Alone);
    push_ident(&mut stream, "Result");
    push_punct(&mut stream, '<', Spacing::Alone);
    push_group(&mut stream, Delim::Paren, new_stream());
    push_punct(&mut stream, ',', Spacing::Alone);
    push_system_item(&mut stream, "RunSystemError");
    push_punct(&mut stream, '>', Spacing::Alone);
    push_group(&mut stream, Delim::Brace, body);
    assert(stream_tokens(stream) =~= run_definition_tokens(stream_tokens(statements)));
    stream
}

/// Writes `run(world).expect("invalid system params");`.
fn run_call() -> (stream: proc_macro2::TokenStream)
    ensures
        stream_tokens(stream) == run_call_tokens(),
{
    proof {
        reveal_strlit("run");
        reveal_strlit("world");
        reveal_strlit("expect");
    }
    let mut argument = new_stream();
    push_ident(&mut argument, "world");
    let mut message = new_stream();
    push_string_literal(&mut message, "invalid system params");
    let mut stream = new_stream();
    push_ident(&mut stream, "run");
    push_group(&mut stream, Delim::Paren, argument);
    push_punct(&mut stream, '.', Spacing::Alone);
    push_ident(&mut stream, "expect");
    push_group(&mut stream, Delim::Paren, message);
    push_punct(&mut stream, ';', Spacing::Alone);
    assert(stream_tokens(stream) =~= run_call_tokens());
    stream
}

/// A parsed tree of systems, each with the name that holds its output, and
/// the way of the host that its statements are written for.
#[derive(Debug)]
pub struct SystemTree {
    pub tree: Tree<SystemNode>,
    pub host: HostRun,
}

/// What parsing a tree of systems gives: the tree that the grammar names,
/// with a named node for each value, or the grammar's error, or `Binding`
/// where a value is no path that a name can be made of.
pub open spec fn system_tree_read(
    read: Result<SystemTree, ParseError>,
    parsed: Result<TreeModel<Seq<TokenTree>>, ErrorModel>,
    host: HostRun,
) -> bool {
    match parsed {
        Err(error) => read is Err && read->Err_0.kind.model() == error,
        Ok(model) => match read {
            Ok(system_tree) => system_tree.host == host && tree_bound(
                Some(system_tree.tree),
                model,
            ),
            Err(error) => error.kind.model() == ErrorModel::Binding && tree_bound(None, model),
        },
    }
}

impl SystemTree {
    /// Parses a tree whose values are paths and gives each value its node,
    /// drawing the slugs of the binding names from `rng` in source order.
    /// The statements will be written for the host's current interface.
    pub fn parse(input: &proc_macro2::TokenStream, rng: &mut NodeRng) -> (read: Result<
        SystemTree,
        ParseError,
    >)
        ensures
            system_tree_read(
                read,
                parsed_tree(ValueGrammar::Path, stream_tokens(*input)),
                HostRun::Checked,
            ),
    {
        SystemTree::parse_for(input, rng, HostRun::Checked)
    }

    /// Parses a tree whose values are paths and gives each value its node,
    /// drawing the slugs of the binding names from `rng` in source order.
    /// The statements will be written for `host`.
    pub fn parse_for(input: &proc_macro2::TokenStream, rng: &mut NodeRng, host: HostRun) -> (read:
        Result<SystemTree, ParseError>)
        ensures
            system_tree_read(read, parsed_tree(ValueGrammar::Path, stream_tokens(*input)), host),
    {
        let parsed = match parse_tree(input, ValueGrammar::Path) {
            Ok(tree) => tree,
            Err(error) => {
                return Err(error);
            },
        };
        match bind_tree(&parsed, rng) {
            Some(tree) => Ok(SystemTree { tree, host }),
            None => Err(ParseError { kind: ParseErrorKind::Binding, span: call_site() }),
        }
    }

    /// Writes the statements of the tree one after another: one for each
    /// value, a value before all that it leads to.
    pub fn to_tokens_runtime_system_statements(&self) -> (stream: proc_macro2::TokenStream)
        ensures
            stream_tokens(stream) == statements_tokens(self.host, self.tree.statements()),
    {
        let statements = runtime_statements(&self.tree);
        let ghost models = statements_model(statements@);
        let mut stream = new_stream();
        let mut index: usize = 0;
        while index < statements.len()
            invariant
                index <= statements.len(),
                models == statements_model(statements@),
                stream_tokens(stream) == statements_tokens(self.host, models.take(index as int)),
            decreases statements.len() - index,
        {
            proof {
                assert(models.take(index + 1).drop_last() =~= models.take(index as int));
                assert(models.take(index + 1).last() == statements@[index as int].model());
            }
            append_stream(&mut stream, statements[index].to_tokens_for(self.host));
            index += 1;
        }
        proof {
            assert(models.take(index as int) =~= models);
        }
        stream
    }

    /// Writes the tree as one closure over the world, which runs the
    /// statements in order.
    pub fn to_tokens(&self) -> (stream: proc_macro2::TokenStream)
        ensures
            stream_tokens(stream) == closure_tokens(
                self.host,
                statements_tokens(self.host, self.tree.statements()),
            ),
    {
        let statements = self.to_tokens_runtime_system_statements();
        let body = match self.host {
            HostRun::Checked => {
                let mut body = run_definition(statements);
                append_stream(&mut body, run_call());
                body
            },
            HostRun::Unchecked => imported_statements(statements),
        };
        let mut stream = allow_attribute();
        push_punct(&mut stream, '|', Spacing::Alone);
        append_stream(&mut stream, world_parameter());
        push_punct(&mut stream, '|', Spacing::Alone);
        push_group(&mut stream, Delim::Brace, body);
        assert(stream_tokens(stream) =~= closure_tokens(
            self.host,
            statements_tokens(self.host, self.tree.statements()),
        ));
        stream
    }
}

} // verus!
