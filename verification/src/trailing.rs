//! Trailing commas are kept with the tree and change nothing else.
//!
//! A comma after the last branch of a tree or of a sub tree is allowed. The
//! parser notes it in the tree; the branches that it reads are the same
//! with and without it, and what is generated from the tree never looks at
//! the note.

use crate::parse::{
    brace_group_at, comma_at, fat_arrow_at, parsed_branch, parsed_branches, parsed_continuation,
    parsed_tree, prepend_branch, value_len, value_prefix, ValueGrammar,
};
use crate::statements::{branch_statements, forest_statements};
use crate::tokens::{comma, TokenTree};
use crate::tree::{forest_height, forest_values_at, Branch, BranchModel, Tree, TreeModel};
use vstd::prelude::*;

verus! {

/// Whether two lists of branches hold the same values in the same shape,
/// whatever their trailing commas and depths.
pub open spec fn same_branches<V>(left: Seq<Branch<V>>, right: Seq<Branch<V>>) -> bool
    decreases left,
{
    &&& left.len() == right.len()
    &&& forall|i: int| 0 <= i < left.len() ==> same_branch(#[trigger] left[i], right[i])
}

/// Whether two branches hold the same values in the same shape, whatever
/// the trailing commas and depths of their sub trees.
pub open spec fn same_branch<V>(left: Branch<V>, right: Branch<V>) -> bool
    decreases left,
{
    match left {
        Branch::Leaf(value) => right == Branch::Leaf(value),
        Branch::Arm(value, child) => {
            &&& right matches Branch::Arm(right_value, right_child)
            &&& right_value == value
            &&& same_branch(*child, *right_child)
        },
        Branch::Tree(value, sub_tree) => {
            &&& right matches Branch::Tree(right_value, right_tree)
            &&& right_value == value
            &&& same_branches(sub_tree.branches@, right_tree.branches@)
        },
    }
}

proof fn lemma_same_branches_shorter<V>(left: Seq<Branch<V>>, right: Seq<Branch<V>>)
    requires
        same_branches(left, right),
        left.len() > 0,
    ensures
        same_branches(left.drop_last(), right.drop_last()),
        same_branch(left.last(), right.last()),
{
    assert forall|i: int| 0 <= i < left.drop_last().len() implies same_branch(
        #[trigger] left.drop_last()[i],
        right.drop_last()[i],
    ) by {
        assert(same_branch(left[i], right[i]));
    }
    assert(same_branch(left[left.len() - 1], right[left.len() - 1]));
}

proof fn lemma_same_branch_generates<V>(left: Branch<V>, right: Branch<V>, depth: nat, parent: Option<V>)
    requires
        same_branch(left, right),
    ensures
        left.values_at(depth) == right.values_at(depth),
        left.height() == right.height(),
        branch_statements(parent, left) == branch_statements(parent, right),
    decreases left,
{
    match left {
        Branch::Leaf(_) => {},
        Branch::Arm(value, child) => {
            let right_child = right->Arm_1;
            lemma_same_branch_generates(*child, *right_child, (depth - 1) as nat, Some(value));
            if depth == 0 {
                lemma_same_branch_generates(*child, *right_child, 0, Some(value));
            }
        },
        Branch::Tree(value, sub_tree) => {
            let right_tree = right->Tree_1;
            lemma_same_branches_generate(
                sub_tree.branches@,
                right_tree.branches@,
                (depth - 1) as nat,
                Some(value),
            );
        },
    }
}

proof fn lemma_same_branches_generate<V>(
    left: Seq<Branch<V>>,
    right: Seq<Branch<V>>,
    depth: nat,
    parent: Option<V>,
)
    requires
        same_branches(left, right),
    ensures
        forest_values_at(left, depth) == forest_values_at(right, depth),
        forest_height(left) == forest_height(right),
        forest_statements(parent, left) == forest_statements(parent, right),
    decreases left,
{
    if left.len() > 0 {
        lemma_same_branches_shorter(left, right);
        lemma_same_branches_generate(left.drop_last(), right.drop_last(), depth, parent);
        lemma_same_branch_generates(left.last(), right.last(), depth, parent);
    }
}

/// Two trees that hold the same values in the same shape have the same
/// levels and the same statements: neither a trailing comma nor a depth is
/// seen in what is generated.
pub proof fn lemma_trailing_commas_are_not_generated<V>(left: Tree<V>, right: Tree<V>)
    requires
        same_branches(left.branches@, right.branches@),
    ensures
        left.levels() == right.levels(),
        left.statements() == right.statements(),
{
    lemma_same_branches_generate(left.branches@, right.branches@, 0, None);
    assert forall|depth: int| 0 <= depth < left.height() implies left.levels()[depth]
        == right.levels()[depth] by {
        lemma_same_branches_generate(left.branches@, right.branches@, depth as nat, None);
    }
    assert(left.levels() =~= right.levels());
}

/// The tokens with a comma behind them.
pub open spec fn with_comma(tokens: Seq<TokenTree>) -> Seq<TokenTree> {
    tokens.push(comma())
}

/// Whether the value grammar reads every value of `tokens` the same when a
/// comma stands behind the tokens: the same value, with the comma left
/// over.
pub open spec fn reads_alike_before_comma(grammar: ValueGrammar, tokens: Seq<TokenTree>) -> bool {
    forall|start: nat|
        start <= tokens.len() ==> match #[trigger] value_prefix(
            grammar,
            tokens.skip(start as int),
        ) {
            Ok((value, rest)) => value_prefix(grammar, with_comma(tokens).skip(start as int))
                == Ok::<(Seq<TokenTree>, nat), Seq<char>>((value, rest + 1)),
            Err(_) => true,
        }
}

proof fn lemma_branch_ends_within(grammar: ValueGrammar, tokens: Seq<TokenTree>, start: nat)
    requires
        start <= tokens.len(),
    ensures
        parsed_branch(grammar, tokens, start) matches Ok((_, len)) ==> start + len <= tokens.len(),
    decreases tokens.len() - start, 0nat,
{
    match value_prefix(grammar, tokens.skip(start as int)) {
        Ok((_, rest)) => {
            let len = value_len((tokens.len() - start) as nat, rest);
            if fat_arrow_at(tokens, (start + len) as int) {
                lemma_continuation_ends_within(grammar, tokens, start + len + 2);
            }
        },
        Err(_) => {},
    }
}

proof fn lemma_continuation_ends_within(grammar: ValueGrammar, tokens: Seq<TokenTree>, start: nat)
    requires
        start <= tokens.len(),
    ensures
        parsed_continuation(grammar, tokens, start) matches Ok((_, len)) ==> start + len
            <= tokens.len(),
    decreases tokens.len() - start, 1nat,
{
    if !brace_group_at(tokens, start as int) {
        lemma_branch_ends_within(grammar, tokens, start);
    }
}

proof fn lemma_branch_before_comma(grammar: ValueGrammar, tokens: Seq<TokenTree>, start: nat)
    requires
        reads_alike_before_comma(grammar, tokens),
        start <= tokens.len(),
        parsed_branch(grammar, tokens, start) is Ok,
    ensures
        parsed_branch(grammar, with_comma(tokens), start) == parsed_branch(grammar, tokens, start),
    decreases tokens.len() - start, 0nat,
{
    let longer = with_comma(tokens);
    match value_prefix(grammar, tokens.skip(start as int)) {
        Ok((value, rest)) => {
            let len = value_len((tokens.len() - start) as nat, rest);
            assert(value_len((longer.len() - start) as nat, rest + 1) == len);
            let end = (start + len) as int;
            if end + 1 < tokens.len() {
                assert(longer[end] == tokens[end]);
                assert(longer[end + 1] == tokens[end + 1]);
            } else if end < tokens.len() {
                assert(longer[end] == tokens[end]);
            }
            assert(fat_arrow_at(longer, end) == fat_arrow_at(tokens, end));
            if fat_arrow_at(tokens, end) {
                lemma_continuation_before_comma(grammar, tokens, start + len + 2);
            }
        },
        Err(_) => {},
    }
}

proof fn lemma_continuation_before_comma(grammar: ValueGrammar, tokens: Seq<TokenTree>, start: nat)
    requires
        reads_alike_before_comma(grammar, tokens),
        start <= tokens.len(),
        parsed_continuation(grammar, tokens, start) is Ok,
    ensures
        parsed_continuation(grammar, with_comma(tokens), start) == parsed_continuation(
            grammar,
            tokens,
            start,
        ),
    decreases tokens.len() - start, 1nat,
{
    let longer = with_comma(tokens);
    if start < tokens.len() {
        assert(longer[start as int] == tokens[start as int]);
    }
    assert(brace_group_at(longer, start as int) == brace_group_at(tokens, start as int));
    if !brace_group_at(tokens, start as int) {
        lemma_branch_before_comma(grammar, tokens, start);
    }
}

proof fn lemma_branches_before_comma(grammar: ValueGrammar, tokens: Seq<TokenTree>, start: nat)
    requires
        reads_alike_before_comma(grammar, tokens),
        start < tokens.len(),
        parsed_branches(grammar, tokens, start) matches Ok((_, trailing_comma)) && !trailing_comma,
    ensures
        parsed_branches(grammar, with_comma(tokens), start) == Ok::<
            (Seq<BranchModel<Seq<TokenTree>>>, bool),
            crate::parse::ErrorModel,
        >((parsed_branches(grammar, tokens, start)->Ok_0.0, true)),
    decreases tokens.len() - start,
{
    let longer = with_comma(tokens);
    lemma_branch_before_comma(grammar, tokens, start);
    lemma_branch_ends_within(grammar, tokens, start);
    let (branch, len) = parsed_branch(grammar, tokens, start)->Ok_0;
    let end = start + len;
    if end >= tokens.len() {
        assert(longer[end as int] == comma());
        assert(comma_at(longer, end as int));
        assert(parsed_branches(grammar, longer, end + 1) == Ok::<
            (Seq<BranchModel<Seq<TokenTree>>>, bool),
            crate::parse::ErrorModel,
        >((Seq::empty(), true)));
        assert(seq![branch] + Seq::<BranchModel<Seq<TokenTree>>>::empty() =~= seq![branch]);
    } else {
        assert(longer[end as int] == tokens[end as int]);
        assert(comma_at(longer, end as int) == comma_at(tokens, end as int));
        let later = parsed_branches(grammar, tokens, end + 1);
        assert(parsed_branches(grammar, tokens, start) == prepend_branch(branch, later));
        if end + 1 < tokens.len() {
            lemma_branches_before_comma(grammar, tokens, end + 1);
        }
    }
}

/// A comma behind a tree that has none changes only the note of the comma:
/// the branches that are parsed are the same. This holds of the tokens that
/// the value grammar reads alike with and without the comma behind them.
pub proof fn lemma_trailing_comma_keeps_the_branches(grammar: ValueGrammar, tokens: Seq<TokenTree>)
    requires
        reads_alike_before_comma(grammar, tokens),
        parsed_tree(grammar, tokens) matches Ok(tree) && !tree.trailing_comma,
    ensures
        parsed_tree(grammar, with_comma(tokens)) == Ok::<
            TreeModel<Seq<TokenTree>>,
            crate::parse::ErrorModel,
        >(
            TreeModel {
                depth: parsed_tree(grammar, tokens)->Ok_0.depth,
                branches: parsed_tree(grammar, tokens)->Ok_0.branches,
                trailing_comma: true,
            },
        ),
{
    lemma_branches_before_comma(grammar, tokens, 0);
}

} // verus!
