//! The tree as text, node by node, each level indented under the one above.

use crate::node::{InternalItem, LeafItem, TreeNode};
use crate::tree::BTree;
use vstd::prelude::*;
use vstd::string::StringExecFns;

verus! {

/// The character of a decimal digit; `9` for any greater number.
pub open spec fn digit(d: int) -> char {
    if d == 0 {
        '0'
    } else if d == 1 {
        '1'
    } else if d == 2 {
        '2'
    } else if d == 3 {
        '3'
    } else if d == 4 {
        '4'
    } else if d == 5 {
        '5'
    } else if d == 6 {
        '6'
    } else if d == 7 {
        '7'
    } else if d == 8 {
        '8'
    } else {
        '9'
    }
}

/// A number in decimal notation, without leading zeros.
pub open spec fn decimal(n: nat) -> Seq<char>
    decreases n,
{
    if n < 10 {
        seq![digit(n as int)]
    } else {
        decimal(n / 10).push(digit((n % 10) as int))
    }
}

/// The line of one entry of a leaf.
pub open spec fn entry_line(indent: Seq<char>, key: usize, payload: Seq<char>) -> Seq<char> {
    indent + "  Key: "@ + decimal(key as nat) + ", Value: "@ + payload + "\n"@
}

/// The number of entries of a leaf that have both a key and a payload.
pub open spec fn entry_count(leaf: LeafItem) -> nat {
    if leaf.index.len() <= leaf.data.len() {
        leaf.index.len() as nat
    } else {
        leaf.data.len() as nat
    }
}

/// The lines of the first `n` entries of a leaf.
pub open spec fn entry_lines(leaf: LeafItem, indent: Seq<char>, n: nat) -> Seq<char>
    decreases n,
{
    if n == 0 || n > entry_count(leaf) {
        Seq::empty()
    } else {
        entry_lines(leaf, indent, (n - 1) as nat) + entry_line(
            indent,
            leaf.index[n - 1],
            leaf.data[n - 1]@,
        )
    }
}

/// The key that bounds child `i` from above: the separator behind it, or the
/// greatest key for the last child.
pub open spec fn bound_of(node: InternalItem, i: int) -> usize {
    if 0 <= i < node.index.len() {
        node.index[i]
    } else {
        usize::MAX
    }
}

/// The line that stands above child `i` of an internal node.
pub open spec fn child_line(indent: Seq<char>, i: nat, bound: usize) -> Seq<char> {
    indent + "  ["@ + decimal(i) + "] Key: "@ + decimal(bound as nat) + "\n"@
}

impl InternalItem {
    /// The text of the first `n` children, each under its line.
    pub open spec fn children_text(&self, indent: Seq<char>, n: nat) -> Seq<char>
        decreases self, n,
    {
        if n == 0 || n > self.data.len() {
            Seq::empty()
        } else {
            self.children_text(indent, (n - 1) as nat) + child_line(
                indent,
                (n - 1) as nat,
                bound_of(*self, n - 1),
            ) + self.data[n - 1].text(indent + "    "@)
        }
    }
}

impl TreeNode {
    /// The text of the subtree, every line of it behind `indent`.
    pub open spec fn text(&self, indent: Seq<char>) -> Seq<char>
        decreases self, 0nat,
    {
        match self {
            TreeNode::Null => indent + "Null\n"@,
            TreeNode::LeafNode(l) => indent + "LeafNode:\n"@ + entry_lines(
                *l,
                indent,
                entry_count(*l),
            ),
            TreeNode::InternalNode(n) => indent + "InternalNode:\n"@ + n.children_text(
                indent,
                n.data.len() as nat,
            ),
        }
    }

    /// Writes the subtree behind `out`, every line of it behind `indent`.
    pub fn print_node(&self, out: &mut String, indent: &str)
        ensures
            final(out)@ == old(out)@ + self.text(indent@),
        decreases self,
    {
        let ghost start = out@;
        match self {
            TreeNode::Null => {
                out.append(indent);
                out.append("Null\n");
                proof {
                    assert(out@ =~= start + self.text(indent@));
                }
            },
            TreeNode::LeafNode(leaf) => {
                out.append(indent);
                out.append("LeafNode:\n");
                let ghost head = out@;
                let count = if leaf.index.len() <= leaf.data.len() {
                    leaf.index.len()
                } else {
                    leaf.data.len()
                };
                let mut i: usize = 0;
                while i < count
                    invariant
                        i <= count,
                        count == entry_count(*leaf),
                        out@ == head + entry_lines(*leaf, indent@, i as nat),
                    decreases count - i,
                {
                    let ghost so_far = out@;
                    out.append(indent);
                    out.append("  Key: ");
                    push_decimal(out, leaf.index[i]);
                    out.append(", Value: ");
                    out.append(leaf.data[i].as_str());
                    out.append("\n");
                    proof {
                        assert(out@ =~= so_far + entry_line(
                            indent@,
                            leaf.index[i as int],
                            leaf.data[i as int]@,
                        ));
                        assert(out@ =~= head + entry_lines(*leaf, indent@, (i + 1) as nat));
                    }
                    i += 1;
                }
                proof {
                    assert(out@ =~= start + self.text(indent@));
                }
            },
            TreeNode::InternalNode(node) => {
                out.append(indent);
                out.append("InternalNode:\n");
                let ghost head = out@;
                let mut deeper = String::from_str(indent);
                deeper.append("    ");
                let mut i: usize = 0;
                while i < node.data.len()
                    invariant
                        i <= node.data.len(),
                        self == TreeNode::InternalNode(*node),
                        deeper@ == indent@ + "    "@,
                        out@ == head + node.children_text(indent@, i as nat),
                    decreases node.data.len() - i,
                {
                    let ghost so_far = out@;
                    let bound = if i < node.index.len() {
                        node.index[i]
                    } else {
                        usize::MAX
                    };
                    out.append(indent);
                    out.append("  [");
                    push_decimal(out, i);
                    out.append("] Key: ");
                    push_decimal(out, bound);
                    out.append("\n");
                    proof {
                        assert(out@ =~= so_far + child_line(indent@, i as nat, bound));
                        assert(self->InternalNode_0 == *node);
                        assert(decreases_to!(*self => self->InternalNode_0));
                        assert(decreases_to!(*node => node.data));
                        assert(decreases_to!(node.data => node.data[i as int]));
                    }
                    node.data[i].print_node(out, deeper.as_str());
                    proof {
                        assert(out@ =~= head + node.children_text(indent@, (i + 1) as nat));
                    }
                    i += 1;
                }
                proof {
                    assert(out@ =~= start + self.text(indent@));
                }
            },
        }
    }
}

/// The text of one decimal digit; `9` for any greater number.
pub fn digit_text(d: usize) -> (text: &'static str)
    ensures
        text@ == seq![digit(d as int)],
{
    proof {
        reveal_strlit("0");
        reveal_strlit("1");
        reveal_strlit("2");
        reveal_strlit("3");
        reveal_strlit("4");
        reveal_strlit("5");
        reveal_strlit("6");
        reveal_strlit("7");
        reveal_strlit("8");
        reveal_strlit("9");
    }
    let text = if d == 0 {
        "0"
    } else if d == 1 {
        "1"
    } else if d == 2 {
        "2"
    } else if d == 3 {
        "3"
    } else if d == 4 {
        "4"
    } else if d == 5 {
        "5"
    } else if d == 6 {
        "6"
    } else if d == 7 {
        "7"
    } else if d == 8 {
        "8"
    } else {
        "9"
    };
    proof {
        assert(text@ =~= seq![digit(d as int)]);
    }
    text
}

/// Writes `n` in decimal notation behind `out`.
pub fn push_decimal(out: &mut String, n: usize)
    ensures
        final(out)@ == old(out)@ + decimal(n as nat),
    decreases n,
{
    let ghost start = out@;
    if n >= 10 {
        push_decimal(out, n / 10);
    }
    out.append(digit_text(n % 10));
    proof {
        assert(out@ =~= start + decimal(n as nat));
    }
}

/// The text of a whole tree: its count and depth, then its nodes.
pub open spec fn tree_text(tree: BTree) -> Seq<char> {
    "BTree:\n"@ + "  Number of elements: "@ + decimal(tree@.len()) + "\n"@ + "  Max depth: "@
        + decimal(tree.depth()) + "\n"@ + "  Tree structure:\n"@ + tree.root_node().text("  "@)
}

impl BTree {
    /// The tree as text: its count and depth, then its nodes, each level
    /// indented under the one above.
    pub fn render(&self) -> (text: String)
        requires
            self.wf(),
        ensures
            text@ == tree_text(*self),
    {
        let mut out = String::from_str("BTree:\n");
        out.append("  Number of elements: ");
        push_decimal(&mut out, self.get_num_elements());
        out.append("\n");
        out.append("  Max depth: ");
        push_decimal(&mut out, self.get_depth());
        out.append("\n");
        out.append("  Tree structure:\n");
        self.root().print_node(&mut out, "  ");
        proof {
            assert(out@ =~= tree_text(*self));
        }
        out
    }
}

} // verus!
