//! A tree written out for reading: one branch on each line, the branches
//! of a sub tree between braces and indented by four spaces more than the
//! tree they hang in.

use crate::node::ExprNode;
use crate::tokens::{stream_text, tokens_text};
use crate::tree::{Branch, Tree, TreeDepth};
use vstd::prelude::*;
use vstd::string::StringExecFns;

verus! {

/// The text before a line at `depth`: four spaces for each level.
pub open spec fn indent_text(depth: nat) -> Seq<char>
    decreases depth,
{
    if depth == 0 {
        Seq::empty()
    } else {
        indent_text((depth - 1) as nat) + "    "@
    }
}

/// The text of a tree whose closing brace stands at `depth`: `{}` for a
/// tree without branches, and else the branches between `{` and `}`, each
/// on a line of its own at one level more than `depth`.
pub open spec fn tree_text(tree: Tree<ExprNode>, depth: nat) -> Seq<char>
    decreases tree,
{
    if tree.branches@.len() == 0 {
        "{}"@
    } else {
        "{\n"@ + lines_text(tree.branches@, depth + 1) + indent_text(depth) + "}"@
    }
}

/// The lines of a list of branches at `depth`.
pub open spec fn lines_text(branches: Seq<Branch<ExprNode>>, depth: nat) -> Seq<char>
    decreases branches,
{
    if branches.len() == 0 {
        Seq::empty()
    } else {
        lines_text(branches.drop_last(), depth) + indent_text(depth) + branch_text(
            branches.last(),
            depth,
        ) + "\n"@
    }
}

/// The text of a branch on a line at `depth`: its value, and after ` => `
/// what the value leads to.
pub open spec fn branch_text(branch: Branch<ExprNode>, depth: nat) -> Seq<char>
    decreases branch,
{
    match branch {
        Branch::Leaf(value) => tokens_text(value@),
        Branch::Arm(value, child) => tokens_text(value@) + " => "@ + branch_text(*child, depth),
        Branch::Tree(value, sub_tree) => tokens_text(value@) + " => "@ + tree_text(
            sub_tree,
            depth,
        ),
    }
}

/// Appends the text of a branch on a line that starts with `indent`.
fn write_branch(out: &mut String, branch: &Branch<ExprNode>, indent: &str, Ghost(depth): Ghost<nat>)
    requires
        indent@ == indent_text(depth),
    ensures
        final(out)@ == old(out)@ + branch_text(*branch, depth),
    decreases *branch,
{
    let value = stream_text(branch.node().tokens());
    out.append(value.as_str());
    match branch {
        Branch::Leaf(_) => {},
        Branch::Arm(_, child) => {
            out.append(" => ");
            write_branch(out, child, indent, Ghost(depth));
        },
        Branch::Tree(_, sub_tree) => {
            out.append(" => ");
            write_tree(out, sub_tree, indent, Ghost(depth));
        },
    }
    assert(out@ =~= old(out)@ + branch_text(*branch, depth));
}

/// Appends the text of a tree whose closing brace follows `indent`.
fn write_tree(out: &mut String, tree: &Tree<ExprNode>, indent: &str, Ghost(depth): Ghost<nat>)
    requires
        indent@ == indent_text(depth),
    ensures
        final(out)@ == old(out)@ + tree_text(*tree, depth),
    decreases *tree,
{
    if tree.branches.len() == 0 {
        out.append("{}");
        return ;
    }
    out.append("{\n");
    let mut deeper = indent.to_owned();
    deeper.append("    ");
    let ghost start = out@;
    let mut index: usize = 0;
    while index < tree.branches.len()
        invariant
            index <= tree.branches.len(),
            indent@ == indent_text(depth),
            deeper@ == indent_text(depth + 1),
            out@ == start + lines_text(tree.branches@.take(index as int), depth + 1),
        decreases tree.branches.len() - index,
    {
        proof {
            assert(tree.branches@.take(index + 1).drop_last() =~= tree.branches@.take(
                index as int,
            ));
        }
        let ghost before = out@;
        out.append(deeper.as_str());
        write_branch(out, &tree.branches[index], deeper.as_str(), Ghost(depth + 1));
        out.append("\n");
        proof {
            assert(out@ =~= start + lines_text(tree.branches@.take(index + 1), depth + 1));
        }
        index += 1;
    }
    proof {
        assert(tree.branches@.take(index as int) =~= tree.branches@);
    }
    out.append(indent);
    out.append("}");
    assert(out@ =~= old(out)@ + tree_text(*tree, depth));
}

/// A tree to be written out, and the depth at which its closing brace
/// stands.
#[derive(Debug)]
pub struct TreeDisplay<'tree> {
    pub tree: &'tree Tree<ExprNode>,
    pub depth: TreeDepth,
}

impl<'tree> TreeDisplay<'tree> {
    /// The text of the tree.
    pub fn to_text(&self) -> (text: String)
        ensures
            text@ == tree_text(*self.tree, self.depth.0 as nat),
    {
        let mut indent = String::new();
        let mut level: u32 = 0;
        while level < self.depth.0
            invariant
                level <= self.depth.0,
                indent@ == indent_text(level as nat),
            decreases self.depth.0 - level,
        {
            indent.append("    ");
            level += 1;
        }
        let mut text = String::new();
        write_tree(&mut text, self.tree, indent.as_str(), Ghost(self.depth.0 as nat));
        assert(text@ =~= tree_text(*self.tree, self.depth.0 as nat));
        text
    }
}

impl Branch<ExprNode> {
    /// The text of the branch on one line: its value, and after ` => ` what
    /// the value leads to, a sub tree written out from depth 0.
    pub fn to_text(&self) -> (text: String)
        ensures
            text@ == branch_text(*self, 0),
    {
        let mut text = String::new();
        proof {
            reveal_strlit("");
            assert(""@ =~= indent_text(0));
        }
        write_branch(&mut text, self, "", Ghost(0));
        assert(text@ =~= branch_text(*self, 0));
        text
    }
}

impl Tree<ExprNode> {
    /// The tree as it is written out from depth 0.
    pub fn display(&self) -> (display: TreeDisplay<'_>)
        ensures
            display.tree == self,
            display.depth.0 == 0,
    {
        TreeDisplay { tree: self, depth: TreeDepth(0) }
    }
}

} // verus!
