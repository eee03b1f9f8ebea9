//! Source text written anew from its parse tree.

use crate::parse::{Node, NodeView, Rule};
use vstd::prelude::*;

verus! {

/// What the first `n` of some nodes are written as, one after another.
pub open spec fn formatted_all(nodes: Seq<NodeView>, n: nat) -> Seq<char>
    decreases nodes, n,
{
    if n == 0 || n > nodes.len() {
        Seq::empty()
    } else {
        formatted_all(nodes, (n - 1) as nat) + formatted(nodes[n - 1])
    }
}

/// What a node is written as: an application in parentheses around what is
/// inside it, a number, a name and a string as their text, a quote as its
/// mark, a line end as a line feed, and anything else as nothing.
pub open spec fn formatted(node: NodeView) -> Seq<char>
    decreases node, 0nat,
{
    match node.rule {
        Rule::Program => formatted_all(node.children, node.children.len()),
        Rule::Function => "("@ + formatted_all(node.children, node.children.len()) + ")"@,
        Rule::Number => node.text,
        Rule::Identifier => node.text,
        Rule::Quote => "'"@,
        Rule::String => node.text,
        Rule::NewLine => "\n"@,
        _ => Seq::empty(),
    }
}

fn format_all(node: &Node, buffer: &mut String)
    ensures
        final(buffer)@ == old(buffer)@ + formatted_all(node@.children, node@.children.len()),
    decreases node, 1nat,
{
    let ghost trees = node@.children;
    let mut i: usize = 0;
    while i < node.children.len()
        invariant
            i <= node.children@.len(),
            trees == node@.children,
            trees.len() == node.children@.len(),
            forall|j: int| 0 <= j < trees.len() ==> (#[trigger] trees[j]) == node.children@[j]@,
            buffer@ == old(buffer)@ + formatted_all(trees, i as nat),
        decreases node.children@.len() - i,
    {
        lcore_format_rule(&node.children[i], buffer);
        i += 1;
    }
}

/// Appends to `buffer` what `node` is written as.
pub fn lcore_format_rule(node: &Node, buffer: &mut String)
    ensures
        final(buffer)@ == old(buffer)@ + formatted(node@),
    decreases node, 2nat,
{
    match node.rule {
        Rule::Program => {
            format_all(node, buffer);
        },
        Rule::Function => {
            buffer.append("(");
            format_all(node, buffer);
            buffer.append(")");
        },
        Rule::Number => {
            buffer.append(node.text.as_str());
        },
        Rule::Identifier => {
            buffer.append(node.text.as_str());
        },
        Rule::Quote => {
            buffer.append("'");
        },
        Rule::String => {
            buffer.append(node.text.as_str());
        },
        Rule::NewLine => {
            buffer.append("\n");
        },
        _ => {
            assert(buffer@ =~= old(buffer)@ + formatted(node@));
        },
    }
}

/// What the program `program` is written as.
pub fn lcore_format_code(program: &Node) -> (r: String)
    ensures
        r@ == formatted(program@),
{
    let mut buffer = String::new();
    lcore_format_rule(program, &mut buffer);
    buffer
}

/// The code with its highlighting, which is the code itself.
pub fn lcore_highlight_code(code: String) -> (r: String)
    ensures
        r@ == code@,
{
    code
}

} // verus!
