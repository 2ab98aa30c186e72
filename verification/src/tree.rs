//! The tree of branches that the grammar describes.
//!
//! A [`Tree`] is an ordered list of [`Branch`]es. A branch is a value that
//! stands alone, leads to one child branch (an arm), or fans out into a sub
//! tree. The spec functions here say what a tree holds: how many values, how
//! many levels, and which values stand at which level.

use vstd::prelude::*;

verus! {

/// How deep a tree lies below the root tree, which has depth 0.
#[derive(Clone, Copy, Debug, PartialEq, Eq, Structural)]
pub struct TreeDepth(pub u32);

impl TreeDepth {
    /// The depth `rhs` levels further down.
    pub fn add(self, rhs: u32) -> (sum: TreeDepth)
        requires
            self.0 + rhs <= u32::MAX,
        ensures
            sum.0 == self.0 + rhs,
    {
        TreeDepth(self.0 + rhs)
    }

    /// Moves this depth `rhs` levels further down.
    pub fn add_assign(&mut self, rhs: u32)
        requires
            old(self).0 + rhs <= u32::MAX,
        ensures
            final(self).0 == old(self).0 + rhs,
    {
        self.0 = self.0 + rhs;
    }
}

impl Default for TreeDepth {
    /// The depth of a root tree.
    fn default() -> (depth: TreeDepth)
        ensures
            depth.0 == 0,
    {
        TreeDepth(0)
    }
}

/// One production of the grammar: a value and what follows it.
#[derive(Debug, PartialEq)]
pub enum Branch<V> {
    /// A value with nothing after it.
    Leaf(V),
    /// A value followed by exactly one child branch.
    Arm(V, Box<Branch<V>>),
    /// A value that fans out into a sub tree.
    Tree(V, Tree<V>),
}

/// An ordered list of branches, with the depth at which it lies and whether
/// a comma followed its last branch in the source.
#[derive(Debug, PartialEq)]
pub struct Tree<V> {
    pub depth: TreeDepth,
    pub branches: Vec<Branch<V>>,
    pub trailing_comma: bool,
}

/// The number of values in a list of branches.
pub open spec fn forest_value_count<V>(branches: Seq<Branch<V>>) -> nat
    decreases branches,
{
    if branches.len() == 0 {
        0
    } else {
        forest_value_count(branches.drop_last()) + branches.last().value_count()
    }
}

/// The number of levels that a list of branches spans.
pub open spec fn forest_height<V>(branches: Seq<Branch<V>>) -> nat
    decreases branches,
{
    if branches.len() == 0 {
        0
    } else {
        let before = forest_height(branches.drop_last());
        let last = branches.last().height();
        if before >= last {
            before
        } else {
            last
        }
    }
}

/// The values of a list of branches that stand `depth` steps below the
/// branches' own values, in source order. Each `=>` is one step.
pub open spec fn forest_values_at<V>(branches: Seq<Branch<V>>, depth: nat) -> Seq<V>
    decreases branches,
{
    if branches.len() == 0 {
        Seq::empty()
    } else {
        forest_values_at(branches.drop_last(), depth) + branches.last().values_at(depth)
    }
}

/// The model of a branch: its shape, with each value replaced by what
/// stands for it.
pub ghost enum BranchModel<M> {
    Leaf(M),
    Arm(M, Box<BranchModel<M>>),
    Tree(M, TreeModel<M>),
}

/// The model of a tree: a sequence of branch models.
pub ghost struct TreeModel<M> {
    pub depth: nat,
    pub branches: Seq<BranchModel<M>>,
    pub trailing_comma: bool,
}

/// What continues a branch after its `=>`: one child branch, or a sub tree
/// in braces.
#[derive(Debug, PartialEq)]
pub enum NodeChild<V> {
    Branch(Box<Branch<V>>),
    Tree(Tree<V>),
}

/// The model of a [`NodeChild`].
pub ghost enum NodeChildModel<M> {
    Branch(BranchModel<M>),
    Tree(TreeModel<M>),
}

impl<V> NodeChild<V> {
    /// The continuation that is one child branch.
    pub fn branch(branch: Branch<V>) -> (child: Self)
        ensures
            child == NodeChild::Branch(Box::new(branch)),
    {
        NodeChild::Branch(Box::new(branch))
    }
}

/// The model of a continuation, each value seen through `value_model`.
pub open spec fn node_child_model<V, M>(child: NodeChild<V>, value_model: spec_fn(V) -> M) -> NodeChildModel<
    M,
> {
    match child {
        NodeChild::Branch(branch) => NodeChildModel::Branch(branch_model(*branch, value_model)),
        NodeChild::Tree(tree) => NodeChildModel::Tree(tree_model(tree, value_model)),
    }
}

/// The model of a tree, each value seen through `value_model`.
pub open spec fn tree_model<V, M>(tree: Tree<V>, value_model: spec_fn(V) -> M) -> TreeModel<M>
    decreases tree,
{
    TreeModel {
        depth: tree.depth.0 as nat,
        branches: forest_model(tree.branches@, value_model),
        trailing_comma: tree.trailing_comma,
    }
}

/// The models of a list of branches, each value seen through `value_model`.
pub open spec fn forest_model<V, M>(branches: Seq<Branch<V>>, value_model: spec_fn(V) -> M) -> Seq<
    BranchModel<M>,
>
    decreases branches,
{
    if branches.len() == 0 {
        Seq::empty()
    } else {
        forest_model(branches.drop_last(), value_model).push(
            branch_model(branches.last(), value_model),
        )
    }
}

/// The model of a branch, each value seen through `value_model`.
pub open spec fn branch_model<V, M>(branch: Branch<V>, value_model: spec_fn(V) -> M) -> BranchModel<
    M,
>
    decreases branch,
{
    match branch {
        Branch::Leaf(value) => BranchModel::Leaf(value_model(value)),
        Branch::Arm(value, child) => BranchModel::Arm(
            value_model(value),
            Box::new(branch_model(*child, value_model)),
        ),
        Branch::Tree(value, sub_tree) => BranchModel::Tree(
            value_model(value),
            tree_model(sub_tree, value_model),
        ),
    }
}

/// How many sub trees are nested in one another in a list of branches,
/// counting only the sub trees of branches that fan out directly.
pub open spec fn forest_nesting<V>(branches: Seq<Branch<V>>) -> nat
    decreases branches,
{
    if branches.len() == 0 {
        0
    } else {
        let before = forest_nesting(branches.drop_last());
        let last = match branches.last() {
            Branch::Tree(_, sub_tree) => 1 + forest_nesting(sub_tree.branches@),
            _ => 0,
        };
        if before >= last {
            before
        } else {
            last
        }
    }
}

/// `after` is `before` with its depth set to `depth` and the depths of the
/// sub trees below it set accordingly; values and shape are the same.
pub open spec fn depths_set<V>(before: Tree<V>, after: Tree<V>, depth: nat) -> bool
    decreases before,
{
    &&& after.depth.0 == depth
    &&& after.trailing_comma == before.trailing_comma
    &&& after.branches@.len() == before.branches@.len()
    &&& forall|i: int|
        0 <= i < before.branches@.len() ==> branch_depths_set(
            #[trigger] before.branches@[i],
            after.branches@[i],
            depth,
        )
}

/// A branch that fans out has the depths of its sub tree set to one more
/// than `depth`. A leaf is as it was, and so is an arm with all that
/// follows it: an arm is a chain inside one tree, no tree of its own.
pub open spec fn branch_depths_set<V>(before: Branch<V>, after: Branch<V>, depth: nat) -> bool
    decreases before,
{
    match before {
        Branch::Tree(value, sub_tree) => {
            &&& after matches Branch::Tree(after_value, after_tree)
            &&& after_value == value
            &&& depths_set(sub_tree, after_tree, depth + 1)
        },
        _ => after == before,
    }
}

/// Whether `holds` is true of every value in a list of branch models.
pub open spec fn model_forest_all<M>(branches: Seq<BranchModel<M>>, holds: spec_fn(M) -> bool) -> bool
    decreases branches,
{
    if branches.len() == 0 {
        true
    } else {
        model_forest_all(branches.drop_last(), holds) && model_branch_all(branches.last(), holds)
    }
}

/// Whether `holds` is true of every value in a branch model.
pub open spec fn model_branch_all<M>(branch: BranchModel<M>, holds: spec_fn(M) -> bool) -> bool
    decreases branch,
{
    match branch {
        BranchModel::Leaf(value) => holds(value),
        BranchModel::Arm(value, child) => holds(value) && model_branch_all(*child, holds),
        BranchModel::Tree(value, sub_tree) => holds(value) && model_forest_all(
            sub_tree.branches,
            holds,
        ),
    }
}

/// What is true of every value in a list is true of every value in the
/// first `count` of its branches.
pub proof fn lemma_all_of_prefix<M>(
    branches: Seq<BranchModel<M>>,
    holds: spec_fn(M) -> bool,
    count: int,
)
    requires
        0 <= count <= branches.len(),
        model_forest_all(branches, holds),
    ensures
        model_forest_all(branches.take(count), holds),
    decreases branches.len(),
{
    if count < branches.len() {
        lemma_all_of_prefix(branches.drop_last(), holds, count);
        assert(branches.drop_last().take(count) =~= branches.take(count));
    } else {
        assert(branches.take(count) =~= branches);
    }
}

/// The model of a list of branches has the model of each branch at the
/// branch's place.
pub proof fn lemma_forest_model_at_each_place<V, M>(
    branches: Seq<Branch<V>>,
    value_model: spec_fn(V) -> M,
)
    ensures
        forest_model(branches, value_model).len() == branches.len(),
        forall|i: int|
            0 <= i < branches.len() ==> #[trigger] forest_model(branches, value_model)[i]
                == branch_model(branches[i], value_model),
    decreases branches.len(),
{
    if branches.len() > 0 {
        lemma_forest_model_at_each_place(branches.drop_last(), value_model);
        assert forall|i: int| 0 <= i < branches.len() implies #[trigger] forest_model(
            branches,
            value_model,
        )[i] == branch_model(branches[i], value_model) by {
            if i < branches.len() - 1 {
                assert(forest_model(branches.drop_last(), value_model)[i] == branch_model(
                    branches.drop_last()[i],
                    value_model,
                ));
            }
        }
    }
}

/// The model of the first `count + 1` branches is the model of the first
/// `count` with the model of the next one behind it.
pub proof fn lemma_model_of_next<V, M>(
    branches: Seq<Branch<V>>,
    value_model: spec_fn(V) -> M,
    count: int,
)
    requires
        0 <= count < branches.len(),
    ensures
        forest_model(branches.take(count + 1), value_model) == forest_model(
            branches.take(count),
            value_model,
        ).push(branch_model(branches[count], value_model)),
{
    assert(branches.take(count + 1).drop_last() =~= branches.take(count));
}

/// How many sub trees are nested in one another in a list of branch
/// models, counting only the sub trees of branches that fan out directly.
pub open spec fn model_forest_nesting<M>(branches: Seq<BranchModel<M>>) -> nat
    decreases branches,
{
    if branches.len() == 0 {
        0
    } else {
        let before = model_forest_nesting(branches.drop_last());
        let last = match branches.last() {
            BranchModel::Tree(_, sub_tree) => 1 + model_forest_nesting(sub_tree.branches),
            _ => 0,
        };
        if before >= last {
            before
        } else {
            last
        }
    }
}

/// The tree model with its depth set to `depth` and the depths of the sub
/// trees below it set accordingly.
pub open spec fn model_with_depths<M>(tree: TreeModel<M>, depth: nat) -> TreeModel<M>
    decreases tree,
{
    TreeModel {
        depth,
        branches: model_forest_with_depths(tree.branches, depth),
        trailing_comma: tree.trailing_comma,
    }
}

/// The branch models with the depths of their sub trees set to one more
/// than `depth`.
pub open spec fn model_forest_with_depths<M>(branches: Seq<BranchModel<M>>, depth: nat) -> Seq<
    BranchModel<M>,
>
    decreases branches,
{
    if branches.len() == 0 {
        Seq::empty()
    } else {
        model_forest_with_depths(branches.drop_last(), depth).push(
            match branches.last() {
                BranchModel::Tree(value, sub_tree) => BranchModel::Tree(
                    value,
                    model_with_depths(sub_tree, depth + 1),
                ),
                other => other,
            },
        )
    }
}

/// The nesting of a list of branches is that of its model.
pub proof fn lemma_nesting_of_model<V, M>(branches: Seq<Branch<V>>, value_model: spec_fn(V) -> M)
    ensures
        model_forest_nesting(forest_model(branches, value_model)) == forest_nesting(branches),
    decreases branches,
{
    if branches.len() > 0 {
        let models = forest_model(branches, value_model);
        assert(models.drop_last() =~= forest_model(branches.drop_last(), value_model));
        assert(models.last() == branch_model(branches.last(), value_model));
        lemma_nesting_of_model(branches.drop_last(), value_model);
        match branches.last() {
            Branch::Tree(_, sub_tree) => {
                lemma_nesting_of_model(sub_tree.branches@, value_model);
                assert(models.last()->Tree_1 == tree_model(sub_tree, value_model));
            },
            Branch::Arm(_, _) => {},
            Branch::Leaf(_) => {},
        }
    }
}

/// Setting the depths of a tree sets the depths of its model.
pub proof fn lemma_depths_of_model<V, M>(
    before: Tree<V>,
    after: Tree<V>,
    depth: nat,
    value_model: spec_fn(V) -> M,
)
    requires
        depths_set(before, after, depth),
    ensures
        tree_model(after, value_model) == model_with_depths(tree_model(before, value_model), depth),
    decreases before, 1nat,
{
    lemma_forest_depths_of_model(before.branches@, after.branches@, depth, value_model);
}

proof fn lemma_forest_depths_of_model<V, M>(
    before: Seq<Branch<V>>,
    after: Seq<Branch<V>>,
    depth: nat,
    value_model: spec_fn(V) -> M,
)
    requires
        before.len() == after.len(),
        forall|i: int|
            0 <= i < before.len() ==> branch_depths_set(#[trigger] before[i], after[i], depth),
    ensures
        forest_model(after, value_model) == model_forest_with_depths(
            forest_model(before, value_model),
            depth,
        ),
    decreases before, 0nat,
{
    if before.len() > 0 {
        let models = forest_model(before, value_model);
        assert(models.drop_last() =~= forest_model(before.drop_last(), value_model));
        assert forall|i: int| 0 <= i < before.drop_last().len() implies branch_depths_set(
            #[trigger] before.drop_last()[i],
            after.drop_last()[i],
            depth,
        ) by {
            assert(branch_depths_set(before[i], after[i], depth));
        }
        lemma_forest_depths_of_model(before.drop_last(), after.drop_last(), depth, value_model);
        assert(branch_depths_set(before[before.len() - 1], after[before.len() - 1], depth));
        assert(models.last() == branch_model(before.last(), value_model));
        let after_models = forest_model(after, value_model);
        assert(after_models.drop_last() =~= forest_model(after.drop_last(), value_model));
        assert(after_models.last() == branch_model(after.last(), value_model));
        match before.last() {
            Branch::Tree(_, sub_tree) => {
                lemma_depths_of_model(sub_tree, after.last()->Tree_1, depth + 1, value_model);
                assert(models.last()->Tree_1 == tree_model(sub_tree, value_model));
            },
            Branch::Arm(_, _) => {},
            Branch::Leaf(_) => {},
        }
        assert(after_models =~= model_forest_with_depths(models, depth));
    }
}

proof fn lemma_nesting_of_prefix<V>(branches: Seq<Branch<V>>, count: int)
    requires
        0 <= count <= branches.len(),
    ensures
        forest_nesting(branches.take(count)) <= forest_nesting(branches),
    decreases branches.len(),
{
    if count < branches.len() {
        lemma_nesting_of_prefix(branches.drop_last(), count);
        assert(branches.drop_last().take(count) =~= branches.take(count));
    } else {
        assert(branches.take(count) =~= branches);
    }
}

proof fn lemma_nesting_of_sub_tree<V>(branches: Seq<Branch<V>>, index: int)
    requires
        0 <= index < branches.len(),
        branches[index] is Tree,
    ensures
        forest_nesting(branches) > forest_nesting(branches[index]->Tree_1.branches@),
    decreases branches.len(),
{
    if index < branches.len() - 1 {
        lemma_nesting_of_sub_tree(branches.drop_last(), index);
    }
}

impl<V> Branch<V> {
    /// The branch's own value.
    pub open spec fn spec_node(self) -> V {
        match self {
            Branch::Leaf(value) => value,
            Branch::Arm(value, _) => value,
            Branch::Tree(value, _) => value,
        }
    }

    /// The number of values in the branch, its own included.
    pub open spec fn value_count(self) -> nat
        decreases self,
    {
        match self {
            Branch::Leaf(_) => 1,
            Branch::Arm(_, child) => 1 + child.value_count(),
            Branch::Tree(_, sub_tree) => 1 + forest_value_count(sub_tree.branches@),
        }
    }

    /// The number of levels that the branch spans, its own included.
    pub open spec fn height(self) -> nat
        decreases self,
    {
        match self {
            Branch::Leaf(_) => 1,
            Branch::Arm(_, child) => 1 + child.height(),
            Branch::Tree(_, sub_tree) => 1 + forest_height(sub_tree.branches@),
        }
    }

    /// The values that stand `depth` steps below the branch's own value, in
    /// source order.
    pub open spec fn values_at(self, depth: nat) -> Seq<V>
        decreases self,
    {
        if depth == 0 {
            seq![self.spec_node()]
        } else {
            match self {
                Branch::Leaf(_) => Seq::empty(),
                Branch::Arm(_, child) => child.values_at((depth - 1) as nat),
                Branch::Tree(_, sub_tree) => forest_values_at(
                    sub_tree.branches@,
                    (depth - 1) as nat,
                ),
            }
        }
    }

    /// A branch that is a lone value.
    pub fn leaf(node: V) -> (branch: Self)
        ensures
            branch == Branch::Leaf(node),
    {
        Branch::Leaf(node)
    }

    /// A branch whose value leads to one child branch.
    pub fn arm(node: V, child: Branch<V>) -> (branch: Self)
        ensures
            branch == Branch::Arm(node, Box::new(child)),
    {
        Branch::Arm(node, Box::new(child))
    }

    /// A branch whose value fans out into a sub tree.
    pub fn tree(node: V, child: Tree<V>) -> (branch: Self)
        ensures
            branch == Branch::Tree(node, child),
    {
        Branch::Tree(node, child)
    }

    /// The branch's own value, whatever follows it.
    pub fn node(&self) -> (value: &V)
        ensures
            *value == self.spec_node(),
    {
        match self {
            Branch::Leaf(value) => value,
            Branch::Arm(value, _) => value,
            Branch::Tree(value, _) => value,
        }
    }

    /// The sub tree of a branch that fans out, to be changed in place;
    /// nothing for a leaf or an arm.
    pub fn sub_tree_mut(&mut self) -> (sub_tree: Option<&mut Tree<V>>)
        ensures
            match *old(self) {
                Branch::Tree(value, child) => sub_tree.is_some() && *sub_tree.unwrap() == child
                    && *final(self) == Branch::Tree(value, *final(sub_tree.unwrap())),
                _ => sub_tree.is_none() && *final(self) == *old(self),
            },
    {
        match self {
            Branch::Tree(_, sub_tree) => Some(sub_tree),
            _ => None,
        }
    }
}

impl<V> Tree<V> {
    /// The number of values in the tree.
    pub open spec fn value_count(self) -> nat {
        forest_value_count(self.branches@)
    }

    /// The number of levels of the tree: one more than the longest chain of
    /// `=>` in it, and none for a tree without branches.
    pub open spec fn height(self) -> nat {
        forest_height(self.branches@)
    }

    /// The values at level `depth` of the tree, in source order.
    pub open spec fn values_at(self, depth: nat) -> Seq<V> {
        forest_values_at(self.branches@, depth)
    }

    /// A tree of the given branches at the given depth, without a trailing
    /// comma.
    pub fn new(depth: TreeDepth, branches: Vec<Branch<V>>) -> (tree: Self)
        ensures
            tree.depth == depth,
            tree.branches == branches,
            !tree.trailing_comma,
    {
        Tree { depth, branches, trailing_comma: false }
    }

    /// A tree of the given branches at depth 0.
    pub fn from_branches(branches: Vec<Branch<V>>, trailing_comma: bool) -> (tree: Self)
        ensures
            tree.depth.0 == 0,
            tree.branches == branches,
            tree.trailing_comma == trailing_comma,
    {
        Tree { depth: TreeDepth(0), branches, trailing_comma }
    }

    /// A tree of one branch at depth 0.
    pub fn from_branch(branch: Branch<V>, trailing_comma: bool) -> (tree: Self)
        ensures
            tree.depth.0 == 0,
            tree.branches@ == seq![branch],
            tree.trailing_comma == trailing_comma,
    {
        let mut branches = Vec::new();
        branches.push(branch);
        Tree { depth: TreeDepth(0), branches, trailing_comma }
    }

    /// A tree at depth 0 in which each of the values is a lone value, in
    /// the order given.
    pub fn from_nodes(nodes: Vec<V>, trailing_comma: bool) -> (tree: Self)
        ensures
            tree.depth.0 == 0,
            tree.branches@ == nodes@.map_values(|node: V| Branch::Leaf(node)),
            tree.trailing_comma == trailing_comma,
    {
        let ghost leaves = nodes@.map_values(|node: V| Branch::Leaf(node));
        let mut branches: Vec<Branch<V>> = Vec::new();
        for node in values: nodes
            invariant
                leaves == nodes@.map_values(|node: V| Branch::Leaf(node)),
                values.seq() == nodes@,
                branches@ == leaves.take(values.index() as int),
        {
            branches.push(Branch::Leaf(node));
            assert(branches@ =~= leaves.take(values.index() + 1));
        }
        assert(leaves.take(nodes@.len() as int) =~= leaves);
        Tree { depth: TreeDepth(0), branches, trailing_comma }
    }

    /// A tree of one lone value at depth 0.
    pub fn from_node(node: V, trailing_comma: bool) -> (tree: Self)
        ensures
            tree.depth.0 == 0,
            tree.branches@ == seq![Branch::Leaf(node)],
            tree.trailing_comma == trailing_comma,
    {
        Tree::from_branch(Branch::Leaf(node), trailing_comma)
    }
}

impl<V> Tree<V> {
    /// How many sub trees are nested in one another in the tree, counting
    /// only the sub trees of branches that fan out directly.
    pub open spec fn nesting(self) -> nat {
        forest_nesting(self.branches@)
    }

    /// Sets the depth of `this` to `depth` and goes on into the sub tree of
    /// every branch that fans out, one level further down.
    fn _calculate_depths_impl(this: &mut Self, depth: TreeDepth)
        requires
            depth.0 + old(this).nesting() <= u32::MAX,
        ensures
            depths_set(*old(this), *final(this), depth.0 as nat),
        decreases *old(this),
    {
        this.depth = depth;
        let mut index: usize = 0;
        while index < this.branches.len()
            invariant
                index <= this.branches.len(),
                this.depth == depth,
                this.trailing_comma == old(this).trailing_comma,
                this.branches@.len() == old(this).branches@.len(),
                depth.0 + old(this).nesting() <= u32::MAX,
                forall|i: int|
                    0 <= i < index ==> branch_depths_set(
                        #[trigger] old(this).branches@[i],
                        this.branches@[i],
                        depth.0 as nat,
                    ),
                forall|i: int|
                    index <= i < this.branches@.len() ==> this.branches@[i] == old(
                        this,
                    ).branches@[i],
            decreases this.branches.len() - index,
        {
            proof {
                if old(this).branches@[index as int] is Tree {
                    lemma_nesting_of_sub_tree(old(this).branches@, index as int);
                }
            }
            if let Some(b_child_tree) = this.branches[index].sub_tree_mut() {
                Self::_calculate_depths_impl(b_child_tree, depth.add(1));
            }
            index += 1;
        }
    }

    /// Whether no more than `limit` sub trees are nested in one another.
    pub fn nesting_within(&self, limit: u32) -> (fits: bool)
        ensures
            fits == (self.nesting() <= limit),
        decreases *self,
    {
        let mut index: usize = 0;
        while index < self.branches.len()
            invariant
                index <= self.branches.len(),
                forest_nesting(self.branches@.take(index as int)) <= limit,
            decreases self.branches.len() - index,
        {
            proof {
                assert(self.branches@.take(index + 1).drop_last() =~= self.branches@.take(
                    index as int,
                ));
            }
            match &self.branches[index] {
                Branch::Tree(_, sub_tree) => {
                    if limit == 0 || !sub_tree.nesting_within(limit - 1) {
                        proof {
                            lemma_nesting_of_prefix(self.branches@, index + 1);
                        }
                        return false;
                    }
                },
                _ => {},
            }
            index += 1;
        }
        proof {
            assert(self.branches@.take(index as int) =~= self.branches@);
        }
        true
    }

    /// Makes this tree the root: its depth becomes 0, the depth of each sub
    /// tree one more than that of the tree it hangs in.
    pub fn set_depth_root(&mut self)
        requires
            old(self).nesting() <= u32::MAX,
        ensures
            depths_set(*old(self), *final(self), 0),
    {
        Self::_calculate_depths_impl(self, TreeDepth(0));
    }
}

} // verus!
