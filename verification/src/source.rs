//! The tokens that a tree is written as, and the way back from them.
//!
//! A tree is written branch after branch with a comma between each two, a
//! branch as its value and, behind `=>`, the branch or the braced sub tree
//! that it leads to. The parser is the way back: what is written here
//! parses to the tree it was written from, as far as the value grammar
//! reads the values back.

use crate::node::ExprNode;
use crate::parse::{
    brace_group_at, comma_at, expr_model, fat_arrow_at, parsed_branch, parsed_branches,
    parsed_continuation, parsed_tree, prepend_branch, value_len, value_prefix, ErrorModel,
    ValueGrammar,
};
use crate::tokens::{
    append_stream, comma, fat_arrow, join_streams, join_with_commas, push_group, push_punct,
    stream_tokens, streams_tokens, Delim, Spacing, TokenTree,
};
use crate::tree::{
    branch_model, forest_model, lemma_forest_model_at_each_place, tree_model, Branch, BranchModel,
    NodeChildModel, Tree, TreeModel,
};
use vstd::prelude::*;

verus! {

/// The tokens that a branch is written as.
pub open spec fn branch_source(branch: BranchModel<Seq<TokenTree>>) -> Seq<TokenTree>
    decreases branch,
{
    match branch {
        BranchModel::Leaf(value) => value,
        BranchModel::Arm(value, child) => value + fat_arrow() + branch_source(*child),
        BranchModel::Tree(value, sub_tree) => (value + fat_arrow()).push(
            TokenTree::Group(Delim::Brace, tree_source(sub_tree)),
        ),
    }
}

/// The tokens that a list of branches is written as: a comma between each
/// two, and one behind the last where `trailing_comma` says so.
pub open spec fn branches_source(
    branches: Seq<BranchModel<Seq<TokenTree>>>,
    trailing_comma: bool,
) -> Seq<TokenTree>
    decreases branches,
{
    if branches.len() == 0 {
        Seq::empty()
    } else if branches.len() == 1 {
        if trailing_comma {
            branch_source(branches[0]).push(comma())
        } else {
            branch_source(branches[0])
        }
    } else {
        branch_source(branches[0]).push(comma()) + branches_source(
            branches.drop_first(),
            trailing_comma,
        )
    }
}

/// The tokens that a tree is written as.
pub open spec fn tree_source(tree: TreeModel<Seq<TokenTree>>) -> Seq<TokenTree>
    decreases tree,
{
    branches_source(tree.branches, tree.trailing_comma)
}

/// What can stand behind a value: nothing, a comma, or `=>`.
pub open spec fn ends_value(rest: Seq<TokenTree>) -> bool {
    rest.len() == 0 || comma_at(rest, 0) || fat_arrow_at(rest, 0)
}

/// Whether the value grammar reads `value` back: from the front of the
/// value with anything behind it that can stand there, it reads the value
/// and leaves the rest.
pub open spec fn read_back(grammar: ValueGrammar, value: Seq<TokenTree>) -> bool {
    &&& value.len() > 0
    &&& forall|rest: Seq<TokenTree>|
        ends_value(rest) ==> #[trigger] value_prefix(grammar, value + rest) == Ok::<
            (Seq<TokenTree>, nat),
            Seq<char>,
        >((value, rest.len()))
}

/// Whether a branch can be written and read again: its values are read
/// back, its sub trees can be written, and what an arm leads to does not
/// begin with a group in braces, which would be read as a sub tree.
pub open spec fn writable_branch(grammar: ValueGrammar, branch: BranchModel<Seq<TokenTree>>) -> bool
    decreases branch,
{
    match branch {
        BranchModel::Leaf(value) => read_back(grammar, value),
        BranchModel::Arm(value, child) => {
            &&& read_back(grammar, value)
            &&& writable_branch(grammar, *child)
            &&& !brace_group_at(branch_source(*child), 0)
        },
        BranchModel::Tree(value, sub_tree) => {
            &&& read_back(grammar, value)
            &&& writable_tree(grammar, sub_tree)
        },
    }
}

/// Whether every branch of a list can be written and read again.
pub open spec fn writable_branches(
    grammar: ValueGrammar,
    branches: Seq<BranchModel<Seq<TokenTree>>>,
) -> bool
    decreases branches,
{
    if branches.len() == 0 {
        true
    } else {
        writable_branch(grammar, branches[0]) && writable_branches(
            grammar,
            branches.drop_first(),
        )
    }
}

/// Whether a tree can be written and read again: it has a branch, its
/// branches can be written, and its depth is that of a parsed tree.
pub open spec fn writable_tree(grammar: ValueGrammar, tree: TreeModel<Seq<TokenTree>>) -> bool
    decreases tree,
{
    &&& tree.depth == 0
    &&& tree.branches.len() > 0
    &&& writable_branches(grammar, tree.branches)
}

proof fn lemma_branch_source_is_not_empty(grammar: ValueGrammar, branch: BranchModel<Seq<TokenTree>>)
    requires
        writable_branch(grammar, branch),
    ensures
        branch_source(branch).len() > 0,
{
    match branch {
        BranchModel::Leaf(_) => {},
        BranchModel::Arm(_, _) => {},
        BranchModel::Tree(_, _) => {},
    }
}

proof fn lemma_peek_at_suffix(tokens: Seq<TokenTree>, index: int)
    requires
        0 <= index <= tokens.len(),
    ensures
        fat_arrow_at(tokens, index) == fat_arrow_at(tokens.skip(index), 0),
        comma_at(tokens, index) == comma_at(tokens.skip(index), 0),
        brace_group_at(tokens, index) == brace_group_at(tokens.skip(index), 0),
        index < tokens.len() ==> tokens[index] == tokens.skip(index)[0],
{
    let suffix = tokens.skip(index);
    if index < tokens.len() {
        assert(suffix[0] == tokens[index]);
    }
    if index + 1 < tokens.len() {
        assert(suffix[1] == tokens[index + 1]);
    }
}

proof fn lemma_suffix_of_suffix(
    tokens: Seq<TokenTree>,
    start: int,
    front: Seq<TokenTree>,
    back: Seq<TokenTree>,
)
    requires
        0 <= start <= tokens.len(),
        tokens.skip(start) == front + back,
    ensures
        start + front.len() <= tokens.len(),
        tokens.len() - start == front.len() + back.len(),
        tokens.skip(start + front.len()) == back,
{
    assert(tokens.skip(start).len() == front.len() + back.len());
    assert(tokens.skip(start + front.len()) =~= tokens.skip(start).skip(front.len() as int));
    assert((front + back).skip(front.len() as int) =~= back);
}

proof fn lemma_value_is_read(
    grammar: ValueGrammar,
    tokens: Seq<TokenTree>,
    start: nat,
    value: Seq<TokenTree>,
    behind: Seq<TokenTree>,
)
    requires
        start <= tokens.len(),
        tokens.skip(start as int) == value + behind,
        ends_value(behind),
        read_back(grammar, value),
    ensures
        value_prefix(grammar, tokens.skip(start as int)) == Ok::<
            (Seq<TokenTree>, nat),
            Seq<char>,
        >((value, behind.len())),
        value_len((tokens.len() - start) as nat, behind.len()) == value.len(),
        start + value.len() <= tokens.len(),
        tokens.skip((start + value.len()) as int) == behind,
        fat_arrow_at(tokens, (start + value.len()) as int) == fat_arrow_at(behind, 0),
{
    lemma_suffix_of_suffix(tokens, start as int, value, behind);
    lemma_peek_at_suffix(tokens, (start + value.len()) as int);
}

proof fn lemma_branch_parses_back(
    grammar: ValueGrammar,
    tokens: Seq<TokenTree>,
    start: nat,
    branch: BranchModel<Seq<TokenTree>>,
    rest: Seq<TokenTree>,
)
    requires
        start <= tokens.len(),
        tokens.skip(start as int) == branch_source(branch) + rest,
        rest.len() == 0 || comma_at(rest, 0),
        writable_branch(grammar, branch),
    ensures
        parsed_branch(grammar, tokens, start) == Ok::<
            (BranchModel<Seq<TokenTree>>, nat),
            ErrorModel,
        >((branch, branch_source(branch).len())),
    decreases branch,
{
    match branch {
        BranchModel::Leaf(value) => {
            lemma_value_is_read(grammar, tokens, start, value, rest);
        },
        BranchModel::Arm(value, child) => {
            let after_arrow = branch_source(*child) + rest;
            let behind = fat_arrow() + after_arrow;
            assert(branch_source(branch) + rest =~= value + behind);
            assert(behind[0] == fat_arrow()[0] && behind[1] == fat_arrow()[1]);
            lemma_value_is_read(grammar, tokens, start, value, behind);
            let next = start + value.len() + 2;
            lemma_suffix_of_suffix(
                tokens,
                (start + value.len()) as int,
                fat_arrow(),
                after_arrow,
            );
            lemma_peek_at_suffix(tokens, next as int);
            lemma_branch_source_is_not_empty(grammar, *child);
            assert(after_arrow[0] == branch_source(*child)[0]);
            lemma_branch_parses_back(grammar, tokens, next, *child, rest);
            assert(parsed_continuation(grammar, tokens, next) == Ok::<
                (NodeChildModel<Seq<TokenTree>>, nat),
                ErrorModel,
            >((NodeChildModel::Branch(*child), branch_source(*child).len())));
        },
        BranchModel::Tree(value, sub_tree) => {
            let group = TokenTree::Group(Delim::Brace, tree_source(sub_tree));
            let after_arrow = seq![group] + rest;
            let behind = fat_arrow() + after_arrow;
            assert(branch_source(branch) + rest =~= value + behind);
            assert(behind[0] == fat_arrow()[0] && behind[1] == fat_arrow()[1]);
            lemma_value_is_read(grammar, tokens, start, value, behind);
            let next = start + value.len() + 2;
            lemma_suffix_of_suffix(
                tokens,
                (start + value.len()) as int,
                fat_arrow(),
                after_arrow,
            );
            lemma_peek_at_suffix(tokens, next as int);
            assert(after_arrow[0] == group);
            lemma_tree_parses_back(grammar, sub_tree);
            assert(parsed_continuation(grammar, tokens, next) == Ok::<
                (NodeChildModel<Seq<TokenTree>>, nat),
                ErrorModel,
            >((NodeChildModel::Tree(sub_tree), 1)));
        },
    }
}

proof fn lemma_branches_parse_back(
    grammar: ValueGrammar,
    tokens: Seq<TokenTree>,
    start: nat,
    branches: Seq<BranchModel<Seq<TokenTree>>>,
    trailing_comma: bool,
)
    requires
        start <= tokens.len(),
        tokens.skip(start as int) == branches_source(branches, trailing_comma),
        branches.len() > 0,
        writable_branches(grammar, branches),
    ensures
        parsed_branches(grammar, tokens, start) == Ok::<
            (Seq<BranchModel<Seq<TokenTree>>>, bool),
            ErrorModel,
        >((branches, trailing_comma)),
        start < tokens.len(),
    decreases branches,
{
    let first = branches[0];
    let source = branch_source(first);
    lemma_branch_source_is_not_empty(grammar, first);
    let end = start + source.len();
    if branches.len() == 1 {
        if trailing_comma {
            let rest = seq![comma()];
            assert(branches_source(branches, trailing_comma) =~= source + rest);
            lemma_branch_parses_back(grammar, tokens, start, first, rest);
            lemma_suffix_of_suffix(tokens, start as int, source, rest);
            lemma_peek_at_suffix(tokens, end as int);
            assert(parsed_branches(grammar, tokens, end + 1) == Ok::<
                (Seq<BranchModel<Seq<TokenTree>>>, bool),
                ErrorModel,
            >((Seq::empty(), true)));
            assert(seq![first] + Seq::<BranchModel<Seq<TokenTree>>>::empty() =~= branches);
        } else {
            let rest = Seq::<TokenTree>::empty();
            assert(branches_source(branches, trailing_comma) =~= source + rest);
            lemma_branch_parses_back(grammar, tokens, start, first, rest);
            lemma_suffix_of_suffix(tokens, start as int, source, rest);
            assert(seq![first] =~= branches);
        }
    } else {
        let later = branches.drop_first();
        let later_source = branches_source(later, trailing_comma);
        let rest = seq![comma()] + later_source;
        assert(branches_source(branches, trailing_comma) =~= source + rest);
        lemma_branch_parses_back(grammar, tokens, start, first, rest);
        lemma_suffix_of_suffix(tokens, start as int, source, rest);
        lemma_peek_at_suffix(tokens, end as int);
        lemma_suffix_of_suffix(tokens, end as int, seq![comma()], later_source);
        lemma_branches_parse_back(grammar, tokens, end + 1, later, trailing_comma);
        assert(seq![first] + later =~= branches);
        assert(parsed_branches(grammar, tokens, start) == prepend_branch(
            first,
            parsed_branches(grammar, tokens, end + 1),
        ));
    }
}

/// Parsing what a tree is written as gives the tree back. This holds of
/// the trees that can be written and read again: those whose values the
/// value grammar reads back, and in which nothing that an arm leads to
/// begins with a group in braces.
pub proof fn lemma_tree_parses_back(grammar: ValueGrammar, tree: TreeModel<Seq<TokenTree>>)
    requires
        writable_tree(grammar, tree),
    ensures
        parsed_tree(grammar, tree_source(tree)) == Ok::<TreeModel<Seq<TokenTree>>, ErrorModel>(
            tree,
        ),
    decreases tree,
{
    let tokens = tree_source(tree);
    assert(tokens.skip(0) =~= tokens);
    lemma_branches_parse_back(grammar, tokens, 0, tree.branches, tree.trailing_comma);
}

/// The tokens that each of the branches is written as.
pub open spec fn branches_sources(branches: Seq<BranchModel<Seq<TokenTree>>>) -> Seq<
    Seq<TokenTree>,
> {
    branches.map_values(|branch: BranchModel<Seq<TokenTree>>| branch_source(branch))
}

proof fn lemma_join_from_the_front(items: Seq<Seq<TokenTree>>)
    requires
        items.len() >= 2,
    ensures
        join_with_commas(items) == items[0].push(comma()) + join_with_commas(items.drop_first()),
    decreases items.len(),
{
    let shorter = items.drop_last();
    let later = items.drop_first();
    if items.len() == 2 {
        assert(shorter =~= seq![items[0]]);
        assert(later =~= seq![items[1]]);
        assert(join_with_commas(items) =~= items[0].push(comma()) + join_with_commas(later));
    } else {
        lemma_join_from_the_front(shorter);
        assert(later.drop_last() =~= shorter.drop_first());
        assert(shorter[0] == items[0]);
        assert(later.last() == items.last());
        let middle = join_with_commas(shorter.drop_first());
        assert(join_with_commas(shorter) == items[0].push(comma()) + middle);
        assert(join_with_commas(later) == middle.push(comma()) + items.last());
        assert(join_with_commas(items) == join_with_commas(shorter).push(comma()) + items.last());
        assert(join_with_commas(items) =~= items[0].push(comma()) + join_with_commas(later));
    }
}

proof fn lemma_branches_source_is_joined(
    branches: Seq<BranchModel<Seq<TokenTree>>>,
    trailing_comma: bool,
)
    requires
        branches.len() > 0,
    ensures
        branches_source(branches, trailing_comma) == join_with_commas(branches_sources(branches))
            + (if trailing_comma {
            seq![comma()]
        } else {
            Seq::empty()
        }),
    decreases branches.len(),
{
    let sources = branches_sources(branches);
    let tail = if trailing_comma {
        seq![comma()]
    } else {
        Seq::<TokenTree>::empty()
    };
    if branches.len() == 1 {
        assert(branches_source(branches, trailing_comma) =~= join_with_commas(sources) + tail);
    } else {
        let later = branches.drop_first();
        lemma_branches_source_is_joined(later, trailing_comma);
        lemma_join_from_the_front(sources);
        assert(sources.drop_first() =~= branches_sources(later));
        assert(branches_source(branches, trailing_comma) =~= join_with_commas(sources) + tail);
    }
}

/// Writes a branch as the tokens that it is parsed from: its value, and
/// behind `=>` the branch or the braced sub tree that it leads to.
pub fn branch_to_source(branch: &Branch<ExprNode>) -> (stream: proc_macro2::TokenStream)
    ensures
        stream_tokens(stream) == branch_source(branch_model(*branch, expr_model())),
    decreases *branch,
{
    let mut stream = branch.node().tokens().clone();
    match branch {
        Branch::Leaf(_) => {},
        Branch::Arm(_, child) => {
            push_punct(&mut stream, '=', Spacing::Joint);
            push_punct(&mut stream, '>', Spacing::Alone);
            append_stream(&mut stream, branch_to_source(child));
        },
        Branch::Tree(_, sub_tree) => {
            push_punct(&mut stream, '=', Spacing::Joint);
            push_punct(&mut stream, '>', Spacing::Alone);
            push_group(&mut stream, Delim::Brace, tree_to_source(sub_tree));
        },
    }
    assert(stream_tokens(stream) =~= branch_source(branch_model(*branch, expr_model())));
    stream
}

/// Writes a tree as the tokens that it is parsed from: its branches with a
/// comma between each two, and one behind the last where the tree notes
/// it.
pub fn tree_to_source(tree: &Tree<ExprNode>) -> (stream: proc_macro2::TokenStream)
    ensures
        stream_tokens(stream) == tree_source(tree_model(*tree, expr_model())),
    decreases *tree,
{
    let ghost models = forest_model(tree.branches@, expr_model());
    let ghost sources = branches_sources(models);
    proof {
        lemma_forest_model_at_each_place(tree.branches@, expr_model());
    }
    let mut rendered: Vec<proc_macro2::TokenStream> = Vec::new();
    let mut index: usize = 0;
    while index < tree.branches.len()
        invariant
            index <= tree.branches.len(),
            models == forest_model(tree.branches@, expr_model()),
            models.len() == tree.branches@.len(),
            forall|i: int|
                0 <= i < tree.branches@.len() ==> #[trigger] models[i] == branch_model(
                    tree.branches@[i],
                    expr_model(),
                ),
            sources == branches_sources(models),
            rendered.len() == index,
            forall|i: int| 0 <= i < index ==> stream_tokens(#[trigger] rendered@[i]) == sources[i],
        decreases tree.branches.len() - index,
    {
        let source = branch_to_source(&tree.branches[index]);
        proof {
            assert(models[index as int] == branch_model(tree.branches@[index as int], expr_model()));
        }
        rendered.push(source);
        index += 1;
    }
    proof {
        assert(streams_tokens(rendered@) =~= sources);
    }
    let mut stream = join_streams(&rendered);
    if tree.branches.len() == 0 {
        proof {
            assert(stream_tokens(stream) =~= tree_source(tree_model(*tree, expr_model())));
        }
        return stream;
    }
    proof {
        lemma_branches_source_is_joined(models, tree.trailing_comma);
    }
    if tree.trailing_comma {
        push_punct(&mut stream, ',', Spacing::Alone);
    }
    assert(stream_tokens(stream) =~= tree_source(tree_model(*tree, expr_model())));
    stream
}

} // verus!
