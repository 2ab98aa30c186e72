//! The order in which the values of a tree are run, each fed by the value
//! that leads to it.
//!
//! A walk of the tree gives one statement for each value: the value, and the
//! value whose `=>` leads to it, if there is one. A value comes before all
//! that it leads to, and the branches of a tree come in source order.

use crate::tree::{forest_value_count, Branch, Tree};
use vstd::prelude::*;

verus! {

/// The statements of one branch below `parent`: the branch's own value fed
/// by `parent`, then what the value leads to, fed by the value.
pub open spec fn branch_statements<V>(parent: Option<V>, branch: Branch<V>) -> Seq<(Option<V>, V)>
    decreases branch,
{
    seq![(parent, branch.spec_node())] + match branch {
        Branch::Leaf(_) => Seq::empty(),
        Branch::Arm(value, child) => branch_statements(Some(value), *child),
        Branch::Tree(value, sub_tree) => forest_statements(Some(value), sub_tree.branches@),
    }
}

/// The statements of a list of branches below `parent`, branch after branch.
pub open spec fn forest_statements<V>(parent: Option<V>, branches: Seq<Branch<V>>) -> Seq<
    (Option<V>, V),
>
    decreases branches,
{
    if branches.len() == 0 {
        Seq::empty()
    } else {
        forest_statements(parent, branches.drop_last()) + branch_statements(
            parent,
            branches.last(),
        )
    }
}

impl<V> Tree<V> {
    /// The statements of the tree: one for each value, the values that
    /// start the tree's branches fed by nothing.
    pub open spec fn statements(self) -> Seq<(Option<V>, V)> {
        forest_statements(None, self.branches@)
    }
}

/// Every statement is fed by `parent` or by the value of a statement that
/// comes before it.
pub open spec fn fed_from_before<V>(statements: Seq<(Option<V>, V)>, parent: Option<V>) -> bool {
    forall|i: int|
        0 <= i < statements.len() ==> (#[trigger] statements[i]).0 == parent || exists|j: int|
            0 <= j < i && (#[trigger] statements[j]).1 == statements[i].0->Some_0
                && statements[i].0 is Some
}

proof fn lemma_fed_joined<V>(
    first: Seq<(Option<V>, V)>,
    second: Seq<(Option<V>, V)>,
    parent: Option<V>,
)
    requires
        fed_from_before(first, parent),
        fed_from_before(second, parent),
    ensures
        fed_from_before(first + second, parent),
{
    let joined = first + second;
    assert forall|i: int| 0 <= i < joined.len() implies (#[trigger] joined[i]).0 == parent
        || exists|j: int|
        0 <= j < i && (#[trigger] joined[j]).1 == joined[i].0->Some_0 && joined[i].0 is Some by {
        if i < first.len() {
            assert(joined[i] == first[i]);
            if first[i].0 != parent {
                let j = choose|j: int|
                    0 <= j < i && (#[trigger] first[j]).1 == first[i].0->Some_0;
                assert(joined[j] == first[j]);
            }
        } else {
            let k = i - first.len();
            assert(joined[i] == second[k]);
            if second[k].0 != parent {
                let j = choose|j: int|
                    0 <= j < k && (#[trigger] second[j]).1 == second[k].0->Some_0;
                assert(joined[j + first.len()] == second[j]);
            }
        }
    }
}

proof fn lemma_fed_below<V>(rest: Seq<(Option<V>, V)>, parent: Option<V>, value: V)
    requires
        fed_from_before(rest, Some(value)),
    ensures
        fed_from_before(seq![(parent, value)] + rest, parent),
{
    let all = seq![(parent, value)] + rest;
    assert forall|i: int| 0 <= i < all.len() implies (#[trigger] all[i]).0 == parent || exists|
        j: int,
    |
        0 <= j < i && (#[trigger] all[j]).1 == all[i].0->Some_0 && all[i].0 is Some by {
        if i > 0 {
            assert(all[i] == rest[i - 1]);
            if rest[i - 1].0 == Some(value) {
                assert(all[0].1 == value);
            } else {
                let j = choose|j: int|
                    0 <= j < i - 1 && (#[trigger] rest[j]).1 == rest[i - 1].0->Some_0;
                assert(all[j + 1] == rest[j]);
            }
        }
    }
}

proof fn lemma_branch_statements<V>(parent: Option<V>, branch: Branch<V>)
    ensures
        branch_statements(parent, branch).len() == branch.value_count(),
        fed_from_before(branch_statements(parent, branch), parent),
    decreases branch,
{
    match branch {
        Branch::Leaf(value) => {
            lemma_fed_below(Seq::<(Option<V>, V)>::empty(), parent, value);
        },
        Branch::Arm(value, child) => {
            lemma_branch_statements(Some(value), *child);
            lemma_fed_below(branch_statements(Some(value), *child), parent, value);
        },
        Branch::Tree(value, sub_tree) => {
            lemma_forest_statements(Some(value), sub_tree.branches@);
            lemma_fed_below(forest_statements(Some(value), sub_tree.branches@), parent, value);
        },
    }
}

proof fn lemma_forest_statements<V>(parent: Option<V>, branches: Seq<Branch<V>>)
    ensures
        forest_statements(parent, branches).len() == forest_value_count(branches),
        fed_from_before(forest_statements(parent, branches), parent),
    decreases branches,
{
    if branches.len() > 0 {
        lemma_forest_statements(parent, branches.drop_last());
        lemma_branch_statements(parent, branches.last());
        lemma_fed_joined(
            forest_statements(parent, branches.drop_last()),
            branch_statements(parent, branches.last()),
            parent,
        );
    }
}

/// A tree has one statement for each of its values, and every statement
/// that is fed by a value comes after the statement of that value: the
/// statements are in an order in which they can be run.
pub proof fn lemma_statements_can_run_in_order<V>(tree: Tree<V>)
    ensures
        tree.statements().len() == tree.value_count(),
        forall|i: int|
            0 <= i < tree.statements().len() && (#[trigger] tree.statements()[i]).0 is Some
                ==> exists|j: int|
                0 <= j < i && (#[trigger] tree.statements()[j]).1
                    == tree.statements()[i].0->Some_0,
{
    lemma_forest_statements(None, tree.branches@);
    let statements = tree.statements();
    assert forall|i: int|
        0 <= i < statements.len() && (#[trigger] statements[i]).0 is Some implies exists|j: int|
        0 <= j < i && (#[trigger] statements[j]).1 == statements[i].0->Some_0 by {
        assert(statements[i].0 != None::<V>);
    }
}

} // verus!
