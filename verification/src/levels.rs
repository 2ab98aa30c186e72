//! Grouping the values of a tree by level.
//!
//! Level 0 holds the values that start the tree's branches; each `=>`,
//! whether it leads to one child or fans out into a sub tree, leads one
//! level down. Within a level the values keep their source order.

use crate::tree::{forest_height, forest_value_count, forest_values_at, Branch, Tree};
use vstd::prelude::*;

verus! {

/// The values that a level of references points to.
pub open spec fn level_values<V>(level: Vec<&V>) -> Seq<V> {
    level@.map_values(|value: &V| *value)
}

/// The values that each of the levels points to.
pub open spec fn levels_values<V>(levels: Seq<Vec<&V>>) -> Seq<Seq<V>> {
    levels.map_values(|level: Vec<&V>| level_values(level))
}

/// The number of values in all the levels together.
pub open spec fn total_len<V>(levels: Seq<Seq<V>>) -> nat
    decreases levels.len(),
{
    if levels.len() == 0 {
        0
    } else {
        total_len(levels.drop_last()) + levels.last().len()
    }
}

impl<V> Tree<V> {
    /// The levels of the tree: as many as its height, level `i` holding the
    /// values at depth `i` in source order.
    pub open spec fn levels(self) -> Seq<Seq<V>> {
        Seq::new(self.height(), |depth: int| self.values_at(depth as nat))
    }
}

/// Level `index` of `levels`, and no values where there is no such level yet.
pub open spec fn level_or_empty<V>(levels: Seq<Vec<&V>>, index: int) -> Seq<V> {
    if 0 <= index < levels.len() {
        level_values(levels[index])
    } else {
        Seq::empty()
    }
}

/// What a walk leaves in the levels: above `depth` they are as before, from
/// `depth` on each has gained the walked values of its distance to `depth`.
pub open spec fn levels_extended<V>(
    before: Seq<Vec<&V>>,
    after: Seq<Vec<&V>>,
    depth: nat,
    height: nat,
    gained: spec_fn(nat) -> Seq<V>,
) -> bool {
    &&& after.len() == if before.len() >= depth + height {
        before.len()
    } else {
        depth + height
    }
    &&& forall|i: int|
        0 <= i < after.len() ==> #[trigger] level_values(after[i]) == level_or_empty(before, i) + (
        if i >= depth {
            gained((i - depth) as nat)
        } else {
            Seq::empty()
        })
}

/// No value of a branch stands below the branch's height.
pub proof fn lemma_branch_values_below_height<V>(branch: Branch<V>, depth: nat)
    requires
        depth >= branch.height(),
    ensures
        branch.values_at(depth) == Seq::<V>::empty(),
    decreases branch,
{
    match branch {
        Branch::Leaf(_) => {},
        Branch::Arm(_, child) => {
            lemma_branch_values_below_height(*child, (depth - 1) as nat);
        },
        Branch::Tree(_, sub_tree) => {
            lemma_forest_values_below_height(sub_tree.branches@, (depth - 1) as nat);
        },
    }
}

/// No value of a list of branches stands below the list's height.
pub proof fn lemma_forest_values_below_height<V>(branches: Seq<Branch<V>>, depth: nat)
    requires
        depth >= forest_height(branches),
    ensures
        forest_values_at(branches, depth) == Seq::<V>::empty(),
    decreases branches,
{
    if branches.len() > 0 {
        lemma_forest_values_below_height(branches.drop_last(), depth);
        lemma_branch_values_below_height(branches.last(), depth);
    }
}

/// The values that start the branches of a list, in source order.
pub open spec fn root_values<V>(branches: Seq<Branch<V>>) -> Seq<V> {
    branches.map_values(|branch: Branch<V>| branch.spec_node())
}

/// The sum of `term(0)`, ..., `term(count - 1)`.
pub open spec fn sum_upto(term: spec_fn(nat) -> nat, count: nat) -> nat
    decreases count,
{
    if count == 0 {
        0
    } else {
        sum_upto(term, (count - 1) as nat) + term((count - 1) as nat)
    }
}

proof fn lemma_sum_equal_terms(left: spec_fn(nat) -> nat, right: spec_fn(nat) -> nat, count: nat)
    requires
        forall|i: nat| i < count ==> #[trigger] left(i) == right(i),
    ensures
        sum_upto(left, count) == sum_upto(right, count),
    decreases count,
{
    if count > 0 {
        lemma_sum_equal_terms(left, right, (count - 1) as nat);
    }
}

proof fn lemma_sum_of_sums(
    left: spec_fn(nat) -> nat,
    right: spec_fn(nat) -> nat,
    both: spec_fn(nat) -> nat,
    count: nat,
)
    requires
        forall|i: nat| i < count ==> #[trigger] both(i) == left(i) + right(i),
    ensures
        sum_upto(both, count) == sum_upto(left, count) + sum_upto(right, count),
    decreases count,
{
    if count > 0 {
        lemma_sum_of_sums(left, right, both, (count - 1) as nat);
    }
}

proof fn lemma_sum_of_nothing(term: spec_fn(nat) -> nat, count: nat)
    requires
        forall|i: nat| i < count ==> #[trigger] term(i) == 0,
    ensures
        sum_upto(term, count) == 0,
    decreases count,
{
    if count > 0 {
        lemma_sum_of_nothing(term, (count - 1) as nat);
    }
}

proof fn lemma_sum_without_first(
    term: spec_fn(nat) -> nat,
    later: spec_fn(nat) -> nat,
    count: nat,
)
    requires
        forall|i: nat| i < count ==> #[trigger] later(i) == term(i + 1),
    ensures
        sum_upto(term, count + 1) == term(0) + sum_upto(later, count),
    decreases count,
{
    if count > 0 {
        lemma_sum_without_first(term, later, (count - 1) as nat);
        assert(later((count - 1) as nat) == term(count));
        assert(sum_upto(later, count) == sum_upto(later, (count - 1) as nat) + later(
            (count - 1) as nat,
        ));
        assert(sum_upto(term, count + 1) == sum_upto(term, count) + term(count));
    } else {
        assert(sum_upto(term, 0) == 0);
        assert(sum_upto(term, 1) == sum_upto(term, 0) + term(0));
    }
}

proof fn lemma_branch_counts<V>(branch: Branch<V>, count: nat)
    requires
        count >= branch.height(),
    ensures
        sum_upto(|depth: nat| branch.values_at(depth).len(), count) == branch.value_count(),
    decreases branch,
{
    let term = |depth: nat| branch.values_at(depth).len();
    let fewer = (count - 1) as nat;
    match branch {
        Branch::Leaf(_) => {
            let later = |depth: nat| 0nat;
            lemma_sum_without_first(term, later, fewer);
            lemma_sum_of_nothing(later, fewer);
        },
        Branch::Arm(_, child) => {
            let later = |depth: nat| child.values_at(depth).len();
            lemma_sum_without_first(term, later, fewer);
            lemma_branch_counts(*child, fewer);
        },
        Branch::Tree(_, sub_tree) => {
            let later = |depth: nat| forest_values_at(sub_tree.branches@, depth).len();
            lemma_sum_without_first(term, later, fewer);
            lemma_forest_counts(sub_tree.branches@, fewer);
        },
    }
}

proof fn lemma_forest_counts<V>(branches: Seq<Branch<V>>, count: nat)
    requires
        count >= forest_height(branches),
    ensures
        sum_upto(|depth: nat| forest_values_at(branches, depth).len(), count)
            == forest_value_count(branches),
    decreases branches,
{
    let both = |depth: nat| forest_values_at(branches, depth).len();
    if branches.len() == 0 {
        lemma_sum_of_nothing(both, count);
    } else {
        let left = |depth: nat| forest_values_at(branches.drop_last(), depth).len();
        let right = |depth: nat| branches.last().values_at(depth).len();
        lemma_sum_of_sums(left, right, both, count);
        lemma_forest_counts(branches.drop_last(), count);
        lemma_branch_counts(branches.last(), count);
    }
}

proof fn lemma_total_len_is_sum<V>(levels: Seq<Seq<V>>)
    ensures
        total_len(levels) == sum_upto(|depth: nat| levels[depth as int].len(), levels.len()),
    decreases levels.len(),
{
    if levels.len() > 0 {
        lemma_total_len_is_sum(levels.drop_last());
        lemma_sum_equal_terms(
            |depth: nat| levels.drop_last()[depth as int].len(),
            |depth: nat| levels[depth as int].len(),
            (levels.len() - 1) as nat,
        );
    }
}

/// The sizes of the levels of a tree add up to the number of values in
/// the tree: every value stands at exactly one level.
pub proof fn lemma_levels_hold_every_value<V>(tree: Tree<V>)
    ensures
        total_len(tree.levels()) == tree.value_count(),
{
    let levels = tree.levels();
    lemma_total_len_is_sum(levels);
    lemma_sum_equal_terms(
        |depth: nat| levels[depth as int].len(),
        |depth: nat| forest_values_at(tree.branches@, depth).len(),
        levels.len(),
    );
    lemma_forest_counts(tree.branches@, tree.height());
}

proof fn lemma_forest_roots<V>(branches: Seq<Branch<V>>)
    ensures
        forest_values_at(branches, 0) == root_values(branches),
        branches.len() > 0 ==> forest_height(branches) > 0,
    decreases branches.len(),
{
    if branches.len() > 0 {
        lemma_forest_roots(branches.drop_last());
        assert(root_values(branches) =~= root_values(branches.drop_last()).push(
            branches.last().spec_node(),
        ));
        assert(branches.last().values_at(0) == seq![branches.last().spec_node()]);
        assert(forest_values_at(branches, 0) =~= root_values(branches));
        assert(branches.last().height() > 0) by {
            match branches.last() {
                Branch::Leaf(_) => {},
                Branch::Arm(_, _) => {},
                Branch::Tree(_, _) => {},
            }
        }
    } else {
        assert(forest_values_at(branches, 0) =~= root_values(branches));
    }
}

/// Level 0 of a tree holds exactly the values that start its branches, in
/// source order: the values that no `=>` leads to.
pub proof fn lemma_level_zero_holds_the_roots<V>(tree: Tree<V>)
    requires
        tree.branches@.len() > 0,
    ensures
        tree.levels().len() > 0,
        tree.levels()[0] == root_values(tree.branches@),
{
    lemma_forest_roots(tree.branches@);
}

/// Puts the value of `value` at level `depth`, opening that level if it is
/// the first value there.
fn push_value<'tree, V>(levels: &mut Vec<Vec<&'tree V>>, value: &'tree V, depth: usize)
    requires
        depth <= old(levels).len(),
    ensures
        levels_extended(
            old(levels)@,
            final(levels)@,
            depth as nat,
            1,
            |distance: nat|
                if distance == 0 {
                    seq![*value]
                } else {
                    Seq::empty()
                },
        ),
{
    if depth >= levels.len() {
        let mut level = Vec::new();
        level.push(value);
        levels.push(level);
    } else {
        levels[depth].push(value);
    }
    proof {
        assert forall|i: int| 0 <= i < levels.len() implies #[trigger] level_values(levels@[i])
            == level_or_empty(old(levels)@, i) + (if i >= depth {
            if (i - depth) as nat == 0 {
                seq![*value]
            } else {
                Seq::empty()
            }
        } else {
            Seq::empty()
        }) by {
            if i == depth {
                assert(level_values(levels@[i]) =~= level_or_empty(old(levels)@, i) + seq![*value]);
            } else {
                assert(levels@[i] == old(levels)@[i]);
                assert(level_values(levels@[i]) =~= level_or_empty(old(levels)@, i)
                    + Seq::<V>::empty());
            }
        }
    }
}

/// Walks one branch: its own value goes to level `depth`, what follows its
/// `=>` one level further down.
fn push_branch<'tree, V>(
    levels: &mut Vec<Vec<&'tree V>>,
    branch: &'tree Branch<V>,
    depth: usize,
)
    requires
        depth <= old(levels).len(),
    ensures
        levels_extended(
            old(levels)@,
            final(levels)@,
            depth as nat,
            branch.height(),
            |distance: nat| branch.values_at(distance),
        ),
    decreases *branch,
{
    push_value(levels, branch.node(), depth);
    let ghost middle = levels@;
    assert(depth < levels.len());
    match branch {
        Branch::Arm(_, child) => {
            push_branch(levels, child, depth + 1);
        },
        Branch::Tree(_, sub_tree) => {
            tree_to_levels_impl(levels, sub_tree, depth + 1);
        },
        Branch::Leaf(_) => {},
    }
    proof {
        assert forall|i: int| 0 <= i < levels.len() implies #[trigger] level_values(levels@[i])
            == level_or_empty(old(levels)@, i) + (if i >= depth {
            branch.values_at((i - depth) as nat)
        } else {
            Seq::empty()
        }) by {
            let before = level_or_empty(old(levels)@, i);
            if i < depth {
                assert(level_or_empty(middle, i) == before + Seq::<V>::empty());
                assert(level_values(levels@[i]) =~= before + Seq::<V>::empty());
            } else if i == depth {
                assert(level_or_empty(middle, i) == before + seq![branch.spec_node()]);
                assert(level_values(levels@[i]) =~= before + branch.values_at(0));
            } else {
                assert(level_or_empty(middle, i) =~= before);
                assert(level_values(levels@[i]) =~= before + branch.values_at((i - depth) as nat));
            }
        }
    }
}

/// Walks the branches of `subtree` in source order, the values that start
/// them going to level `depth`.
fn tree_to_levels_impl<'tree, V>(
    levels: &mut Vec<Vec<&'tree V>>,
    subtree: &'tree Tree<V>,
    depth: usize,
)
    requires
        depth <= old(levels).len(),
    ensures
        levels_extended(
            old(levels)@,
            final(levels)@,
            depth as nat,
            subtree.height(),
            |distance: nat| subtree.values_at(distance),
        ),
    decreases *subtree,
{
    let mut index: usize = 0;
    proof {
        assert forall|i: int| 0 <= i < levels.len() implies #[trigger] level_values(levels@[i])
            == level_or_empty(old(levels)@, i) + (if i >= depth {
            forest_values_at(subtree.branches@.take(0), (i - depth) as nat)
        } else {
            Seq::empty()
        }) by {
            assert(level_values(levels@[i]) =~= level_or_empty(old(levels)@, i)
                + Seq::<V>::empty());
        }
    }
    while index < subtree.branches.len()
        invariant
            index <= subtree.branches.len(),
            depth <= old(levels).len(),
            levels_extended(
                old(levels)@,
                levels@,
                depth as nat,
                forest_height(subtree.branches@.take(index as int)),
                |distance: nat| forest_values_at(subtree.branches@.take(index as int), distance),
            ),
        decreases subtree.branches.len() - index,
    {
        let ghost middle = levels@;
        let ghost done = subtree.branches@.take(index as int);
        let ghost next = subtree.branches@.take(index + 1);
        let branch = &subtree.branches[index];
        push_branch(levels, branch, depth);
        proof {
            assert(next.drop_last() =~= done);
            assert(next.last() == *branch);
            assert forall|i: int| 0 <= i < levels.len() implies #[trigger] level_values(
                levels@[i],
            ) == level_or_empty(old(levels)@, i) + (if i >= depth {
                forest_values_at(next, (i - depth) as nat)
            } else {
                Seq::empty()
            }) by {
                let before = level_or_empty(old(levels)@, i);
                if i < depth {
                    assert(level_or_empty(middle, i) == before + Seq::<V>::empty());
                    assert(level_values(levels@[i]) =~= before + Seq::<V>::empty());
                } else {
                    let distance = (i - depth) as nat;
                    if i < middle.len() {
                        assert(level_values(middle[i]) == before + forest_values_at(done, distance));
                    } else {
                        lemma_forest_values_below_height(done, distance);
                        assert(level_or_empty(middle, i) =~= before + forest_values_at(done, distance));
                    }
                    assert(level_values(levels@[i]) =~= before + forest_values_at(next, distance));
                }
            }
        }
        index += 1;
    }
    proof {
        assert(subtree.branches@.take(index as int) =~= subtree.branches@);
    }
}

/// Groups the values of `tree` by level: the result has one entry for each
/// level of the tree, and entry `i` refers to the values at depth `i` in
/// source order.
pub fn tree_to_levels<V>(tree: &Tree<V>) -> (tree_levels: Vec<Vec<&V>>)
    ensures
        levels_values(tree_levels@) == tree.levels(),
{
    let mut tree_levels: Vec<Vec<&V>> = Vec::new();
    tree_to_levels_impl(&mut tree_levels, tree, 0);
    proof {
        assert forall|i: int| 0 <= i < tree_levels.len() implies levels_values(tree_levels@)[i]
            == tree.levels()[i] by {
            assert(level_values(tree_levels@[i]) =~= tree.values_at(i as nat));
        }
        assert(levels_values(tree_levels@) =~= tree.levels());
    }
    tree_levels
}

} // verus!
