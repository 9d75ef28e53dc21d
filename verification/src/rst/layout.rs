//! How an arena stores a tree: the relation between the links of the nodes
//! and the tree that they stand for.

use crate::range::Range;
use crate::rst::raw::{NodeId, RawNode, RawNodeData};
use crate::rst::tree::{leaves, on_tokens, span, spannable, Tree};
use crate::token::RawToken;
use vstd::prelude::*;

verus! {

/// What is known of each node of an arena beyond its links: its children,
/// the tree below it and the number of the token at which that tree begins.
pub struct Model {
    pub kids: Seq<Seq<NodeId>>,
    pub sub: Seq<Tree>,
    pub at: Seq<int>,
}

/// Entry `m` of `ids` as a link, or no link past its end.
pub open spec fn link_of(ids: Seq<NodeId>, m: int) -> Option<NodeId> {
    if 0 <= m < ids.len() {
        Some(ids[m])
    } else {
        None
    }
}

/// Child number `m` of node `i` comes after `i`, names `i` as its parent and
/// links to the child after it.
pub open spec fn child_ok(nodes: Seq<RawNode>, kids: Seq<Seq<NodeId>>, i: int, m: int) -> bool {
    let c = kids[i][m].0 as int;
    &&& i < c < nodes.len()
    &&& nodes[c].parent == Some(NodeId(i as usize))
    &&& nodes[c].next_sibling == link_of(kids[i], m + 1)
}

/// The links of node `i` and of its children spell the list `kids[i]`.
pub open spec fn links_ok(nodes: Seq<RawNode>, kids: Seq<Seq<NodeId>>, i: int) -> bool {
    &&& nodes[i].first_child_spec() == link_of(kids[i], 0)
    &&& (nodes[i].data is Leaf ==> kids[i].len() == 0)
    &&& forall|m: int| 0 <= m < kids[i].len() ==> #[trigger] child_ok(nodes, kids, i, m)
}

/// The trees below the nodes `ids`.
pub open spec fn trees_of(sub: Seq<Tree>, ids: Seq<NodeId>) -> Seq<Tree> {
    Seq::new(ids.len(), |m: int| sub[ids[m].0 as int])
}

/// The tree that node `i` stands for, given the trees of its children.
pub open spec fn tree_at(nodes: Seq<RawNode>, kids: Seq<Seq<NodeId>>, sub: Seq<Tree>, i: int) -> Tree {
    match nodes[i].data {
        RawNodeData::Leaf { range } => Tree::Leaf { ty: nodes[i].ty, range },
        RawNodeData::Composite { .. } => Tree::Composite {
            ty: nodes[i].ty,
            children: trees_of(sub, kids[i]),
        },
    }
}

/// The cache of an inner node admits the span of its tree and nothing else.
pub open spec fn cache_ok(node: RawNode, t: Tree) -> bool {
    match node.data {
        RawNodeData::Leaf { .. } => true,
        RawNodeData::Composite { cached_range, .. } => {
            &&& cached_range.wf()
            &&& forall|r: Range| #[trigger] cached_range.admits(r) <==> (spannable(t) && r == span(t))
        },
    }
}

/// Node `i` is complete: its tree is that of its links, lies on the tokens
/// before `pos`, and its cache is that of its tree.
pub open spec fn closed_ok(
    nodes: Seq<RawNode>,
    model: Model,
    tokens: Seq<RawToken>,
    pos: int,
    i: int,
) -> bool {
    &&& model.sub[i] == tree_at(nodes, model.kids, model.sub, i)
    &&& on_tokens(model.sub[i], tokens, model.at[i])
    &&& model.at[i] + leaves(model.sub[i]).len() <= pos
    &&& cache_ok(nodes[i], model.sub[i])
}

/// A complete node stays complete as more tokens are consumed.
pub proof fn lemma_closed_later(
    nodes: Seq<RawNode>,
    model: Model,
    tokens: Seq<RawToken>,
    pos: int,
    pos2: int,
    i: int,
)
    requires
        closed_ok(nodes, model, tokens, pos, i),
        pos <= pos2,
    ensures
        closed_ok(nodes, model, tokens, pos2, i),
{
}

/// A complete node stays complete while its own contents and the trees of
/// its children stay as they are.
pub proof fn lemma_closed_preserved(
    nodes: Seq<RawNode>,
    model: Model,
    tokens: Seq<RawToken>,
    pos: int,
    nodes2: Seq<RawNode>,
    model2: Model,
    pos2: int,
    i: int,
)
    requires
        closed_ok(nodes, model, tokens, pos, i),
        links_ok(nodes, model.kids, i),
        0 <= i < nodes.len() <= nodes2.len(),
        model.sub.len() == nodes.len(),
        model2.sub.len() == nodes2.len(),
        nodes2[i].ty == nodes[i].ty,
        nodes2[i].data == nodes[i].data,
        model2.kids[i] == model.kids[i],
        model2.sub[i] == model.sub[i],
        model2.at[i] == model.at[i],
        forall|m: int|
            0 <= m < model.kids[i].len() ==> model2.sub[(#[trigger] model.kids[i][m]).0 as int]
                == model.sub[model.kids[i][m].0 as int],
        pos <= pos2,
    ensures
        closed_ok(nodes2, model2, tokens, pos2, i),
{
    assert(trees_of(model2.sub, model.kids[i]) =~= trees_of(model.sub, model.kids[i]));
}

} // verus!
