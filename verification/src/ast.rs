//! The Abstract Syntax Tree (AST), i.e. the output of the parser.

use vstd::prelude::*;

verus! {

/// Represent a node in an AST. Every byte span it holds borrows from the
/// parsed input; nothing is copied.
#[derive(Debug, PartialEq)]
pub enum Node<'a> {
    /// A block is the elementary component of the annotation format. The
    /// left part of `name` is the namespace, the right part the block name;
    /// `attributes`, when present, is the exact `{…}` span, unparsed;
    /// `children` holds inner blocks and phrases in document order, and is
    /// empty for void blocks.
    Block {
        name: (&'a [u8], &'a [u8]),
        attributes: Option<&'a [u8]>,
        children: Vec<Node<'a>>,
    },
    /// Anything that is not a block.
    Phrase(&'a [u8]),
}

/// Mathematical twin of `Node`, over byte sequences.
pub enum GNode {
    Block { ns: Seq<u8>, name: Seq<u8>, attrs: Option<Seq<u8>>, children: Seq<GNode> },
    Phrase(Seq<u8>),
}

/// The abstraction of one node.
pub open spec fn node_view(n: Node) -> GNode
    decreases n,
{
    match n {
        Node::Block { name, attributes, children } => GNode::Block {
            ns: name.0@,
            name: name.1@,
            attrs: match attributes {
                Some(a) => Some(a@),
                None => None,
            },
            children: nodes_view(children@),
        },
        Node::Phrase(p) => GNode::Phrase(p@),
    }
}

/// The abstraction of a sequence of nodes, in order.
pub open spec fn nodes_view(v: Seq<Node>) -> Seq<GNode>
    decreases v,
{
    if v.len() == 0 {
        Seq::empty()
    } else {
        seq![node_view(v[0])] + nodes_view(v.drop_first())
    }
}

/// Abstracting a list commutes with appending one node to it.
pub proof fn lemma_nodes_view_push(v: Seq<Node>, n: Node)
    ensures
        nodes_view(v.push(n)) == nodes_view(v).push(node_view(n)),
    decreases v.len(),
{
    if v.len() == 0 {
        assert(v.push(n).drop_first() =~= Seq::<Node>::empty());
        assert(v.push(n)[0] == n);
        assert(nodes_view(Seq::<Node>::empty()) =~= Seq::<GNode>::empty());
        assert(nodes_view(v) =~= Seq::<GNode>::empty());
        assert(nodes_view(v.push(n)) == seq![node_view(n)] + nodes_view(Seq::<Node>::empty()));
        assert(seq![node_view(n)] + Seq::<GNode>::empty() =~= Seq::<GNode>::empty().push(
            node_view(n),
        ));
    } else {
        assert(v.push(n)[0] == v[0]);
        assert(v.push(n).drop_first() =~= v.drop_first().push(n));
        lemma_nodes_view_push(v.drop_first(), n);
        assert(seq![node_view(v[0])] + nodes_view(v.drop_first()).push(node_view(n)) =~= (
        seq![node_view(v[0])] + nodes_view(v.drop_first())).push(node_view(n)));
    }
}

/// The abstraction keeps the length and maps the list element by element.
pub proof fn lemma_nodes_view_index(v: Seq<Node>, i: int)
    requires
        0 <= i < v.len(),
    ensures
        nodes_view(v).len() == v.len(),
        nodes_view(v)[i] == node_view(v[i]),
    decreases v.len(),
{
    if i == 0 {
        lemma_nodes_view_len(v.drop_first());
    } else {
        lemma_nodes_view_index(v.drop_first(), i - 1);
    }
}

/// The abstraction keeps the length.
pub proof fn lemma_nodes_view_len(v: Seq<Node>)
    ensures
        nodes_view(v).len() == v.len(),
    decreases v.len(),
{
    if v.len() > 0 {
        lemma_nodes_view_len(v.drop_first());
    }
}

} // verus!
